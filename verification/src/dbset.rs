//! The databases loaded for one kind of address, and the one selected for
//! lookups.
use vstd::prelude::*;

use crate::sources::{DatabaseSource, DbSetInfo};
use crate::tree_bitmap::map_get;

verus! {

/// What tells sources apart: their kind, and the path of a file.
pub open spec fn source_key(s: DatabaseSource) -> (int, Seq<char>) {
    match s {
        DatabaseSource::DbIpCombined => (0, Seq::empty()),
        DatabaseSource::Geolite2Combined => (1, Seq::empty()),
        DatabaseSource::File(path) => (2, path@),
    }
}

/// Whether two sources are the same source.
pub fn same_source(a: &DatabaseSource, b: &DatabaseSource) -> (r: bool)
    ensures
        r == (source_key(*a) == source_key(*b)),
{
    match (a, b) {
        (DatabaseSource::DbIpCombined, DatabaseSource::DbIpCombined) => true,
        (DatabaseSource::Geolite2Combined, DatabaseSource::Geolite2Combined) => true,
        (DatabaseSource::File(x), DatabaseSource::File(y)) => *x == *y,
        _ => false,
    }
}

/// A copy of a source.
pub fn copy_source(s: &DatabaseSource) -> (r: DatabaseSource)
    ensures
        r == *s,
{
    match s {
        DatabaseSource::DbIpCombined => DatabaseSource::DbIpCombined,
        DatabaseSource::Geolite2Combined => DatabaseSource::Geolite2Combined,
        DatabaseSource::File(path) => DatabaseSource::File(path.clone()),
    }
}

/// The databases loaded for one kind of address, each under its source, and
/// the one selected for lookups, if any.
pub struct DbSet<D> {
    loaded: Vec<(DatabaseSource, D)>,
    selected: Option<usize>,
}

impl<D> DbSet<D> {
    /// No source is loaded twice, and the selected database is a loaded one.
    pub closed spec fn wf(&self) -> bool {
        &&& forall|i: int, j: int|
            0 <= i < self.loaded@.len() && 0 <= j < self.loaded@.len() && i != j ==> source_key(
                (#[trigger] self.loaded@[i]).0,
            ) != source_key((#[trigger] self.loaded@[j]).0)
        &&& match self.selected {
            Some(i) => i < self.loaded@.len(),
            None => true,
        }
    }

    /// The loaded databases, by source.
    pub closed spec fn view(&self) -> Map<(int, Seq<char>), D> {
        Map::new(
            |k: (int, Seq<char>)| exists|i: int| 0 <= i < self.loaded@.len() && source_key(self.loaded@[i].0) == k,
            |k: (int, Seq<char>)|
                self.loaded@[choose|i: int| 0 <= i < self.loaded@.len() && source_key(self.loaded@[i].0) == k].1,
        )
    }

    /// The source of the selected database, if any.
    pub closed spec fn selected_key(&self) -> Option<(int, Seq<char>)> {
        match self.selected {
            Some(i) => Some(source_key(self.loaded@[i as int].0)),
            None => None,
        }
    }

    /// The databases are finitely many; a database is known by its source.
    proof fn lemma_view(&self, i: int)
        requires
            self.wf(),
            0 <= i < self.loaded@.len(),
        ensures
            self@.contains_key(source_key(self.loaded@[i].0)),
            self@[source_key(self.loaded@[i].0)] == self.loaded@[i].1,
    {
        let k = source_key(self.loaded@[i].0);
        let j = choose|j: int| 0 <= j < self.loaded@.len() && source_key(self.loaded@[j].0) == k;
        assert(source_key(self.loaded@[j].0) == source_key(self.loaded@[i].0));
    }

    /// The index of the database loaded from `source`, if any.
    fn find(&self, source: &DatabaseSource) -> (r: Option<usize>)
        requires
            self.wf(),
        ensures
            match r {
                Some(i) => i < self.loaded@.len() && source_key(self.loaded@[i as int].0) == source_key(*source),
                None => !self@.contains_key(source_key(*source)),
            },
    {
        let mut i: usize = 0;
        while i < self.loaded.len()
            invariant
                i <= self.loaded@.len(),
                forall|j: int| 0 <= j < i ==> source_key((#[trigger] self.loaded@[j]).0) != source_key(*source),
            decreases self.loaded@.len() - i,
        {
            if same_source(&self.loaded[i].0, source) {
                return Some(i);
            }
            i = i + 1;
        }
        None
    }

    /// Nothing loaded, nothing selected.
    pub fn new() -> (r: DbSet<D>)
        ensures
            r.wf(),
            r@ == Map::<(int, Seq<char>), D>::empty(),
            r.selected_key() == None::<(int, Seq<char>)>,
    {
        let r = DbSet { loaded: Vec::new(), selected: None };
        proof {
            assert(r@ =~= Map::<(int, Seq<char>), D>::empty());
        }
        r
    }

    /// Load `db` from `source`, in place of the database loaded from it
    /// before, if any, and select it.
    pub fn insert(&mut self, source: DatabaseSource, db: D)
        requires
            old(self).wf(),
        ensures
            final(self).wf(),
            final(self)@ == old(self)@.insert(source_key(source), db),
            final(self).selected_key() == Some(source_key(source)),
    {
        let ghost k = source_key(source);
        let ghost before = self.loaded@;
        let i = match self.find(&source) {
            Some(i) => {
                self.loaded.set(i, (source, db));
                i
            },
            None => {
                self.loaded.push((source, db));
                self.loaded.len() - 1
            },
        };
        self.selected = Some(i);
        proof {
            let after = self.loaded@;
            assert forall|a: int, b: int|
                0 <= a < after.len() && 0 <= b < after.len() && a != b implies source_key((#[trigger] after[a]).0)
                != source_key((#[trigger] after[b]).0) by {
                if a != i && b != i {
                    assert(after[a] == before[a] && after[b] == before[b]);
                }
                if a == i && b < before.len() && b != i {
                    assert(after[b] == before[b]);
                    if before.len() == after.len() {
                        assert(source_key(before[i as int].0) == k);
                    } else {
                        old(self).lemma_view(b);
                    }
                }
                if b == i && a < before.len() && a != i {
                    assert(after[a] == before[a]);
                    if before.len() == after.len() {
                        assert(source_key(before[i as int].0) == k);
                    } else {
                        old(self).lemma_view(a);
                    }
                }
            }
            assert forall|key: (int, Seq<char>)| #[trigger] self@.contains_key(key) == old(self)@.insert(k, db).contains_key(key) by {
                if key == k {
                    assert(source_key(after[i as int].0) == k);
                } else {
                    if self@.contains_key(key) {
                        let j = choose|j: int| 0 <= j < after.len() && source_key(after[j].0) == key;
                        assert(j != i);
                        assert(after[j] == before[j]);
                    }
                    if old(self)@.contains_key(key) {
                        let j = choose|j: int| 0 <= j < before.len() && source_key(before[j].0) == key;
                        assert(j != i);
                        assert(after[j] == before[j]);
                    }
                }
            }
            assert forall|key: (int, Seq<char>)| #[trigger] self@.contains_key(key) implies self@[key] == old(self)@.insert(
                k,
                db,
            )[key] by {
                let j = choose|j: int| 0 <= j < after.len() && source_key(after[j].0) == key;
                self.lemma_view(j);
                if key != k {
                    assert(j != i);
                    assert(after[j] == before[j]);
                    old(self).lemma_view(j);
                } else {
                    self.lemma_view(i as int);
                }
            }
            assert(self@ =~= old(self)@.insert(k, db));
        }
    }

    /// Unload the database loaded from `source` and return it, if there is
    /// one. When it was the selected one, another loaded database is
    /// selected, or none when none is left.
    pub fn remove(&mut self, source: &DatabaseSource) -> (r: Option<D>)
        requires
            old(self).wf(),
        ensures
            final(self).wf(),
            r == map_get(old(self)@, source_key(*source)),
            final(self)@ == old(self)@.remove(source_key(*source)),
            old(self).selected_key() != Some(source_key(*source)) ==> final(self).selected_key() == old(
                self,
            ).selected_key(),
            old(self).selected_key() == Some(source_key(*source)) ==> (final(self).selected_key().is_some()
                <==> final(self)@.dom() != Set::<(int, Seq<char>)>::empty()),
    {
        let ghost k = source_key(*source);
        let ghost before = self.loaded@;
        match self.find(source) {
            None => {
                proof {
                    assert(old(self)@.remove(k) =~= old(self)@);
                    if old(self).selected_key() == Some(k) {
                        old(self).lemma_view(old(self).selected.unwrap() as int);
                    }
                }
                None
            },
            Some(i) => {
                proof {
                    old(self).lemma_view(i as int);
                }
                let (_, db) = self.loaded.remove(i);
                self.selected = match self.selected {
                    Some(j) => if j == i {
                        if self.loaded.len() > 0 {
                            Some(0)
                        } else {
                            None
                        }
                    } else if j > i {
                        Some(j - 1)
                    } else {
                        Some(j)
                    },
                    None => None,
                };
                proof {
                    let after = self.loaded@;
                    assert forall|a: int| 0 <= a < after.len() implies #[trigger] after[a] == (if a < i {
                        before[a]
                    } else {
                        before[a + 1]
                    }) by {}
                    assert forall|a: int, b: int|
                        0 <= a < after.len() && 0 <= b < after.len() && a != b implies source_key(
                        (#[trigger] after[a]).0,
                    ) != source_key((#[trigger] after[b]).0) by {
                        let a0 = if a < i { a } else { a + 1 };
                        let b0 = if b < i { b } else { b + 1 };
                        assert(after[a] == before[a0] && after[b] == before[b0]);
                    }
                    assert forall|key: (int, Seq<char>)| #[trigger] self@.contains_key(key) == old(self)@.remove(
                        k,
                    ).contains_key(key) by {
                        if self@.contains_key(key) {
                            let j = choose|j: int| 0 <= j < after.len() && source_key(after[j].0) == key;
                            let j0 = if j < i { j } else { j + 1 };
                            assert(after[j] == before[j0]);
                            assert(source_key(before[j0].0) != k);
                        }
                        if old(self)@.contains_key(key) && key != k {
                            let j0 = choose|j0: int| 0 <= j0 < before.len() && source_key(before[j0].0) == key;
                            assert(j0 != i);
                            let j = if j0 < i { j0 } else { j0 - 1 };
                            assert(after[j] == before[j0]);
                        }
                    }
                    assert forall|key: (int, Seq<char>)| #[trigger] self@.contains_key(key) implies self@[key]
                        == old(self)@.remove(k)[key] by {
                        let j = choose|j: int| 0 <= j < after.len() && source_key(after[j].0) == key;
                        self.lemma_view(j);
                        let j0 = if j < i { j } else { j + 1 };
                        assert(after[j] == before[j0]);
                        old(self).lemma_view(j0);
                    }
                    assert(self@ =~= old(self)@.remove(k));
                    match old(self).selected {
                        Some(j) => {
                            if j != i {
                                let j1 = if j > i { j - 1 } else { j as int };
                                assert(after[j1] == before[j as int]);
                            } else if after.len() > 0 {
                                self.lemma_view(0);
                            } else {
                                assert(self@.dom() =~= Set::<(int, Seq<char>)>::empty());
                            }
                        },
                        None => {},
                    }
                }
                Some(db)
            },
        }
    }

    /// Select the database loaded from `source`, if there is one; otherwise
    /// the selection stays.
    pub fn set_selected(&mut self, source: &DatabaseSource)
        requires
            old(self).wf(),
        ensures
            final(self).wf(),
            final(self)@ == old(self)@,
            old(self)@.contains_key(source_key(*source)) ==> final(self).selected_key() == Some(source_key(*source)),
            !old(self)@.contains_key(source_key(*source)) ==> final(self).selected_key() == old(self).selected_key(),
    {
        if let Some(i) = self.find(source) {
            self.selected = Some(i);
            proof {
                assert(self@ =~= old(self)@);
            }
        }
    }

    /// The selected database, if any.
    pub fn selected(&self) -> (r: Option<&D>)
        requires
            self.wf(),
        ensures
            match self.selected_key() {
                Some(k) => r.is_some() && self@.contains_key(k) && *r.unwrap() == self@[k],
                None => r.is_none(),
            },
    {
        match self.selected {
            Some(i) => {
                proof {
                    self.lemma_view(i as int);
                }
                Some(&self.loaded[i].1)
            },
            None => None,
        }
    }

    /// Whether no database is loaded.
    pub fn is_empty(&self) -> (r: bool)
        requires
            self.wf(),
        ensures
            r == (self@.dom() == Set::<(int, Seq<char>)>::empty()),
    {
        proof {
            if self.loaded@.len() > 0 {
                self.lemma_view(0);
            } else {
                assert(self@.dom() =~= Set::<(int, Seq<char>)>::empty());
            }
        }
        self.loaded.len() == 0
    }

    /// Whether a database is loaded from `source`.
    pub fn is_loaded(&self, source: &DatabaseSource) -> (r: bool)
        requires
            self.wf(),
        ensures
            r == self@.contains_key(source_key(*source)),
    {
        match self.find(source) {
            Some(i) => {
                proof {
                    self.lemma_view(i as int);
                }
                true
            },
            None => false,
        }
    }

    /// The sources of the loaded databases, and that of the selected one.
    pub fn info(&self) -> (r: DbSetInfo)
        requires
            self.wf(),
        ensures
            match self.selected_key() {
                Some(k) => r.selected.is_some() && source_key(r.selected.unwrap()) == k,
                None => r.selected.is_none(),
            },
            forall|i: int| 0 <= i < r.loaded@.len() ==> self@.contains_key(source_key(#[trigger] r.loaded@[i])),
            forall|k: (int, Seq<char>)| #[trigger] self@.contains_key(k) ==> exists|i: int|
                0 <= i < r.loaded@.len() && source_key(r.loaded@[i]) == k,
            forall|i: int, j: int|
                0 <= i < r.loaded@.len() && 0 <= j < r.loaded@.len() && i != j ==> source_key(#[trigger] r.loaded@[i])
                    != source_key(#[trigger] r.loaded@[j]),
    {
        let mut loaded: Vec<DatabaseSource> = Vec::new();
        let mut i: usize = 0;
        while i < self.loaded.len()
            invariant
                self.wf(),
                i <= self.loaded@.len(),
                loaded@.len() == i,
                forall|j: int| 0 <= j < i ==> (#[trigger] loaded@[j]) == self.loaded@[j].0,
            decreases self.loaded@.len() - i,
        {
            loaded.push(copy_source(&self.loaded[i].0));
            i = i + 1;
        }
        let selected = match self.selected {
            Some(i) => Some(copy_source(&self.loaded[i].0)),
            None => None,
        };
        let r = DbSetInfo { selected, loaded };
        proof {
            assert forall|j: int| 0 <= j < r.loaded@.len() implies self@.contains_key(
                source_key(#[trigger] r.loaded@[j]),
            ) by {
                self.lemma_view(j);
            }
            assert forall|k: (int, Seq<char>)| #[trigger] self@.contains_key(k) implies exists|j: int|
                0 <= j < r.loaded@.len() && source_key(r.loaded@[j]) == k by {
                let j = choose|j: int| 0 <= j < self.loaded@.len() && source_key(self.loaded@[j].0) == k;
                assert(r.loaded@[j] == self.loaded@[j].0);
                assert(source_key(r.loaded@[j]) == k);
            }
        }
        r
    }
}

/// The selected database is always a loaded one.
pub proof fn law_selected_is_loaded<D>(s: DbSet<D>)
    requires
        s.wf(),
    ensures
        s.selected_key() is Some ==> s@.contains_key(s.selected_key().unwrap()),
{
    if let Some(i) = s.selected {
        s.lemma_view(i as int);
    }
}

} // verus!
