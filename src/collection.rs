//! The bookmark collection: a mapping from names to records, stored as a
//! vector kept in ascending name order.

use vstd::prelude::*;

use crate::text::{lemma_seq_less_irreflexive, lemma_seq_less_total, lemma_seq_less_transitive, name_less, seq_less};

verus! {

/// What a record holds: its URL and its tags, in the order given.
pub struct BookmarkView {
    pub url: Seq<char>,
    pub tags: Seq<Seq<char>>,
}

/// One bookmark's record.
#[derive(Clone, Debug, PartialEq, Eq)]
pub struct Bookmark {
    pub url: String,
    pub tags: Vec<String>,
}

impl View for Bookmark {
    type V = BookmarkView;

    open spec fn view(&self) -> BookmarkView {
        BookmarkView { url: self.url@, tags: self.tags.deep_view() }
    }
}

/// A named record, as the collection lists it.
#[derive(Clone, Debug, PartialEq, Eq)]
pub struct Entry {
    pub name: String,
    pub bookmark: Bookmark,
}

impl View for Entry {
    type V = (Seq<char>, BookmarkView);

    open spec fn view(&self) -> (Seq<char>, BookmarkView) {
        (self.name@, self.bookmark@)
    }
}

/// Each name in the listing comes strictly before the names after it.
pub open spec fn names_ascending(l: Seq<(Seq<char>, BookmarkView)>) -> bool {
    forall|i: int, j: int| 0 <= i < j < l.len() ==> seq_less(#[trigger] l[i].0, #[trigger] l[j].0)
}

/// The listing holds exactly the entries of the map.
pub open spec fn lists(l: Seq<(Seq<char>, BookmarkView)>, m: Map<Seq<char>, BookmarkView>) -> bool {
    &&& forall|i: int| 0 <= i < l.len() ==> m.contains_key(#[trigger] l[i].0) && m[l[i].0] == l[i].1
    &&& forall|k: Seq<char>| #[trigger] m.contains_key(k) ==> exists|i: int| 0 <= i < l.len() && l[i].0 == k
}

/// The map `m` with the entries of `l` stored into it, first to last.
pub open spec fn with_all(m: Map<Seq<char>, BookmarkView>, l: Seq<(Seq<char>, BookmarkView)>) -> Map<
    Seq<char>,
    BookmarkView,
>
    decreases l.len(),
{
    if l.len() == 0 {
        m
    } else {
        with_all(m, l.drop_last()).insert(l.last().0, l.last().1)
    }
}

/// Two listings in ascending name order that hold exactly the entries of
/// one map are the same listing: the order is fixed by the entries.
pub proof fn lemma_ascending_listing_unique(
    a: Seq<(Seq<char>, BookmarkView)>,
    b: Seq<(Seq<char>, BookmarkView)>,
    m: Map<Seq<char>, BookmarkView>,
)
    requires
        names_ascending(a),
        names_ascending(b),
        lists(a, m),
        lists(b, m),
    ensures
        a == b,
    decreases a.len(),
{
    if a.len() == 0 {
        if b.len() > 0 {
            assert(m.contains_key(b[0].0));
        }
        assert(a =~= b);
    } else {
        assert(m.contains_key(a[0].0));
        if b.len() == 0 {
            assert(false);
        }
        let k = a[0].0;
        let i = choose|i: int| 0 <= i < a.len() && a[i].0 == b[0].0;
        let j = choose|j: int| 0 <= j < b.len() && b[j].0 == k;
        if i > 0 && j > 0 {
            lemma_seq_less_total(k, b[0].0);
        }
        assert(k == b[0].0);
        let m2 = m.remove(k);
        let a2 = a.drop_first();
        let b2 = b.drop_first();
        assert forall|x: int| 0 <= x < a2.len() implies m2.contains_key(#[trigger] a2[x].0) && m2[a2[x].0]
            == a2[x].1 by {
            assert(seq_less(a[0].0, a[x + 1].0));
            lemma_seq_less_irreflexive(k);
        }
        assert forall|x: int| 0 <= x < b2.len() implies m2.contains_key(#[trigger] b2[x].0) && m2[b2[x].0]
            == b2[x].1 by {
            assert(seq_less(b[0].0, b[x + 1].0));
            lemma_seq_less_irreflexive(k);
        }
        assert forall|key: Seq<char>| #[trigger] m2.contains_key(key) implies exists|x: int|
            0 <= x < a2.len() && a2[x].0 == key by {
            let x = choose|x: int| 0 <= x < a.len() && a[x].0 == key;
            assert(a2[x - 1].0 == key);
        }
        assert forall|key: Seq<char>| #[trigger] m2.contains_key(key) implies exists|x: int|
            0 <= x < b2.len() && b2[x].0 == key by {
            let x = choose|x: int| 0 <= x < b.len() && b[x].0 == key;
            assert(b2[x - 1].0 == key);
        }
        lemma_ascending_listing_unique(a2, b2, m2);
        assert(a =~= b) by {
            assert forall|x: int| 0 <= x < a.len() implies a[x] == b[x] by {
                if x > 0 {
                    assert(a[x] == a2[x - 1]);
                }
            }
        }
    }
}

/// Storing the entries of a listing with distinct names into an empty map,
/// one after another, gives the map that the listing lists.
pub proof fn lemma_with_all_lists(l: Seq<(Seq<char>, BookmarkView)>)
    requires
        forall|i: int, j: int| 0 <= i < j < l.len() ==> l[i].0 != l[j].0,
    ensures
        lists(l, with_all(Map::empty(), l)),
    decreases l.len(),
{
    if l.len() > 0 {
        let l2 = l.drop_last();
        lemma_with_all_lists(l2);
        let m = with_all(Map::empty(), l);
        assert forall|i: int| 0 <= i < l.len() implies m.contains_key(#[trigger] l[i].0) && m[l[i].0]
            == l[i].1 by {
            if i < l.len() - 1 {
                assert(l2[i] == l[i]);
            }
        }
        assert forall|k: Seq<char>| #[trigger] m.contains_key(k) implies exists|i: int|
            0 <= i < l.len() && l[i].0 == k by {
            if k != l.last().0 {
                let i = choose|i: int| 0 <= i < l2.len() && l2[i].0 == k;
                assert(l[i].0 == k);
            } else {
                assert(l[l.len() - 1].0 == k);
            }
        }
    }
}

/// Bookmarks by name. The names are unique and the entries are listed in
/// ascending name order.
pub struct Collection {
    entries: Vec<Entry>,
    contents: Ghost<Map<Seq<char>, BookmarkView>>,
}

impl View for Collection {
    type V = Map<Seq<char>, BookmarkView>;

    closed spec fn view(&self) -> Map<Seq<char>, BookmarkView> {
        self.contents@
    }
}

impl Collection {
    /// The entries in the order in which they are stored and listed.
    pub closed spec fn listing(&self) -> Seq<(Seq<char>, BookmarkView)> {
        self.entries@.map_values(|e: Entry| e@)
    }

    #[verifier::type_invariant]
    closed spec fn well_formed(self) -> bool {
        &&& names_ascending(self.listing())
        &&& lists(self.listing(), self.contents@)
    }

    /// What holds of every collection: the listing is in ascending name order
    /// and holds exactly the collection's entries.
    pub open spec fn valid(&self) -> bool {
        &&& names_ascending(self.listing())
        &&& lists(self.listing(), self@)
    }

    /// No two entries of a collection have the same name.
    pub proof fn lemma_names_unique(&self)
        requires
            self.valid(),
        ensures
            forall|i: int, j: int|
                0 <= i < self.listing().len() && 0 <= j < self.listing().len() && i != j
                    ==> self.listing()[i].0 != self.listing()[j].0,
    {
        assert forall|i: int, j: int|
            0 <= i < self.listing().len() && 0 <= j < self.listing().len() && i != j implies self.listing()[i].0
            != self.listing()[j].0 by {
            let l = self.listing();
            if i < j {
                assert(seq_less(l[i].0, l[j].0));
            } else {
                assert(seq_less(l[j].0, l[i].0));
            }
            lemma_seq_less_irreflexive(l[i].0);
        }
    }

    /// Two collections with the same bookmarks list them in the same order,
    /// which is the order in which they are displayed and saved.
    pub proof fn lemma_listing_determined(&self, other: &Collection)
        requires
            self.valid(),
            other.valid(),
            self@ == other@,
        ensures
            self.listing() == other.listing(),
    {
        lemma_ascending_listing_unique(self.listing(), other.listing(), self@);
    }

    /// Storing a collection's entries, in the order listed, into an empty
    /// collection gives back the same bookmarks, listed in the same order.
    pub proof fn lemma_rebuild(&self, rebuilt: &Collection)
        requires
            self.valid(),
            rebuilt.valid(),
            rebuilt@ == with_all(Map::empty(), self.listing()),
        ensures
            rebuilt@ == self@,
            rebuilt.listing() == self.listing(),
    {
        self.lemma_names_unique();
        lemma_with_all_lists(self.listing());
        let l = self.listing();
        assert(rebuilt@ =~= self@) by {
            assert forall|k: Seq<char>| rebuilt@.contains_key(k) implies self@.contains_key(k) by {
                let i = choose|i: int| 0 <= i < l.len() && l[i].0 == k;
            }
            assert forall|k: Seq<char>| self@.contains_key(k) implies rebuilt@.contains_key(k) && rebuilt@[k]
                == self@[k] by {
                let i = choose|i: int| 0 <= i < l.len() && l[i].0 == k;
            }
        }
        self.lemma_listing_determined(rebuilt);
    }

    /// An empty collection.
    pub fn new() -> (c: Collection)
        ensures
            c@ == Map::<Seq<char>, BookmarkView>::empty(),
            c.valid(),
            c.listing() == Seq::<(Seq<char>, BookmarkView)>::empty(),
    {
        let c = Collection { entries: Vec::new(), contents: Ghost(Map::empty()) };
        assert(c.listing() =~= Seq::<(Seq<char>, BookmarkView)>::empty());
        c
    }

    /// The collection holding `entries`, stored one after another, so that
    /// of two entries with one name the later one stays.
    pub fn from_entries(entries: Vec<Entry>) -> (c: Collection)
        ensures
            c@ == with_all(Map::empty(), entries@.map_values(|e: Entry| e@)),
            c.valid(),
    {
        let ghost all = entries@.map_values(|e: Entry| e@);
        let mut c = Collection::new();
        assert(entries@.map_values(|e: Entry| e@) =~= all.skip(0));
        let mut rest = entries;
        let mut i: usize = 0;
        let n = rest.len();
        while rest.len() > 0
            invariant
                i + rest@.len() == n,
                n == all.len(),
                rest@.map_values(|e: Entry| e@) == all.skip(i as int),
                c@ == with_all(Map::empty(), all.take(i as int)),
                c.valid(),
            decreases rest@.len(),
        {
            let ghost before = rest@;
            let e = rest.remove(0);
            assert(e@ == before.map_values(|e: Entry| e@)[0]);
            assert(all.take(i + 1).drop_last() =~= all.take(i as int));
            assert(rest@ =~= before.subrange(1, before.len() as int));
            assert forall|j: int| 0 <= j < rest@.len() implies #[trigger] rest@[j]@ == all[i + 1 + j] by {
                assert(rest@[j] == before[j + 1]);
                assert(before.map_values(|e: Entry| e@)[j + 1] == all.skip(i as int)[j + 1]);
            }
            assert(rest@.map_values(|e: Entry| e@) =~= all.skip(i + 1));
            c.insert(e.name, e.bookmark);
            i = i + 1;
        }
        assert(all.take(n as int) =~= all);
        c
    }

    /// The number of bookmarks.
    pub fn len(&self) -> (n: usize)
        ensures
            n == self.listing().len(),
            self.valid(),
    {
        proof {
            use_type_invariant(self);
        }
        self.entries.len()
    }

    /// The entries in ascending name order.
    pub fn entries(&self) -> (r: &Vec<Entry>)
        ensures
            r@.map_values(|e: Entry| e@) == self.listing(),
            self.valid(),
    {
        proof {
            use_type_invariant(self);
        }
        &self.entries
    }

    /// Where `name` stands, or would stand, in the listing.
    fn locate(&self, name: &str) -> (r: (usize, bool))
        ensures
            r.0 <= self.listing().len(),
            forall|j: int| 0 <= j < r.0 ==> seq_less(#[trigger] self.listing()[j].0, name@),
            r.1 == self@.contains_key(name@),
            r.1 ==> r.0 < self.listing().len() && self.listing()[r.0 as int].0 == name@,
            !r.1 ==> forall|j: int|
                r.0 <= j < self.listing().len() ==> seq_less(name@, #[trigger] self.listing()[j].0),
    {
        proof {
            use_type_invariant(self);
        }
        let ghost l = self.listing();
        let mut p: usize = 0;
        while p < self.entries.len() && name_less(self.entries[p].name.as_str(), name)
            invariant
                l == self.listing(),
                p <= l.len(),
                forall|j: int| 0 <= j < p ==> seq_less(#[trigger] l[j].0, name@),
            decreases l.len() - p,
        {
            p = p + 1;
        }
        let found = p < self.entries.len() && !name_less(name, self.entries[p].name.as_str());
        proof {
            if found {
                lemma_seq_less_total(l[p as int].0, name@);
            } else {
                if p < l.len() {
                    lemma_seq_less_total(l[p as int].0, name@);
                    assert forall|j: int| p <= j < l.len() implies seq_less(name@, #[trigger] l[j].0) by {
                        if j > p {
                            lemma_seq_less_transitive(name@, l[p as int].0, l[j].0);
                        }
                    }
                }
                if self@.contains_key(name@) {
                    let i = choose|i: int| 0 <= i < l.len() && l[i].0 == name@;
                    if i < p {
                        lemma_seq_less_irreflexive(name@);
                    } else {
                        lemma_seq_less_irreflexive(name@);
                    }
                }
            }
        }
        (p, found)
    }

    /// Whether a bookmark of this name is in the collection.
    pub fn contains(&self, name: &str) -> (r: bool)
        ensures
            r == self@.contains_key(name@),
            self.valid(),
    {
        proof {
            use_type_invariant(self);
        }
        self.locate(name).1
    }
}

impl Collection {
    /// The record stored under `name`, if any.
    pub fn get(&self, name: &str) -> (r: Option<&Bookmark>)
        ensures
            r is Some == self@.contains_key(name@),
            r matches Some(b) ==> b@ == self@[name@],
    {
        proof {
            use_type_invariant(self);
        }
        let (p, found) = self.locate(name);
        if found {
            Some(&self.entries[p].bookmark)
        } else {
            None
        }
    }

    /// Stores `bookmark` under `name`, replacing the record stored there
    /// before, if any.
    pub fn insert(&mut self, name: String, bookmark: Bookmark)
        ensures
            final(self)@ == old(self)@.insert(name@, bookmark@),
            final(self).valid(),
    {
        let (p, found) = self.locate(name.as_str());
        let mut taken = Collection::new();
        std::mem::swap(&mut taken, self);
        proof {
            use_type_invariant(&taken);
        }
        let Collection { mut entries, contents } = taken;
        let ghost l = entries@.map_values(|e: Entry| e@);
        let ghost key = name@;
        let ghost value = bookmark@;
        let entry = Entry { name, bookmark };
        if found {
            entries.set(p, entry);
        } else {
            entries.insert(p, entry);
        }
        let ghost m = contents@.insert(key, value);
        let ghost nl = entries@.map_values(|e: Entry| e@);
        proof {
            if found {
                assert(nl =~= l.update(p as int, (key, value)));
            } else {
                assert(nl =~= l.insert(p as int, (key, value)));
            }
            assert forall|i: int, j: int| 0 <= i < j < nl.len() implies seq_less(
                #[trigger] nl[i].0,
                #[trigger] nl[j].0,
            ) by {
                if !found && i < p && j > p {
                    lemma_seq_less_transitive(nl[i].0, key, nl[j].0);
                }
            }
            assert forall|i: int| 0 <= i < nl.len() implies m.contains_key(#[trigger] nl[i].0) && m[nl[i].0]
                == nl[i].1 by {
                if i != p {
                    let oi = if !found && i > p { i - 1 } else { i };
                    assert(nl[i] == l[oi]);
                    if oi < p {
                        lemma_seq_less_irreflexive(key);
                    } else if found {
                        lemma_seq_less_total(key, l[oi].0);
                        assert(seq_less(l[p as int].0, l[oi].0));
                        lemma_seq_less_irreflexive(key);
                    } else {
                        lemma_seq_less_irreflexive(key);
                    }
                }
            }
            assert forall|k: Seq<char>| #[trigger] m.contains_key(k) implies exists|i: int|
                0 <= i < nl.len() && nl[i].0 == k by {
                if k == key {
                    assert(nl[p as int].0 == k);
                } else {
                    let oi = choose|oi: int| 0 <= oi < l.len() && l[oi].0 == k;
                    if found {
                        assert(nl[oi].0 == k);
                    } else if oi < p {
                        assert(nl[oi].0 == k);
                    } else {
                        assert(nl[oi + 1].0 == k);
                    }
                }
            }
        }
        *self = Collection { entries, contents: Ghost(m) };
    }
}

impl Collection {
    /// Removes the record stored under `name`, if any; every other entry
    /// stays as it was, in the same order. Returns whether there was one.
    pub fn remove(&mut self, name: &str) -> (removed: bool)
        ensures
            removed == old(self)@.contains_key(name@),
            final(self)@ == old(self)@.remove(name@),
            final(self).valid(),
            removed ==> exists|i: int|
                0 <= i < old(self).listing().len() && old(self).listing()[i].0 == name@
                    && final(self).listing() == old(self).listing().remove(i),
            !removed ==> final(self).listing() == old(self).listing(),
    {
        proof {
            use_type_invariant(&*self);
        }
        let (p, found) = self.locate(name);
        if !found {
            return false;
        }
        let mut taken = Collection::new();
        std::mem::swap(&mut taken, self);
        proof {
            use_type_invariant(&taken);
        }
        let Collection { mut entries, contents } = taken;
        let ghost l = entries@.map_values(|e: Entry| e@);
        let _gone = entries.remove(p);
        let ghost m = contents@.remove(name@);
        let ghost nl = entries@.map_values(|e: Entry| e@);
        proof {
            assert(nl =~= l.remove(p as int));
            assert forall|i: int| 0 <= i < nl.len() implies m.contains_key(#[trigger] nl[i].0) && m[nl[i].0]
                == nl[i].1 by {
                let oi = if i < p { i } else { i + 1 };
                assert(nl[i] == l[oi]);
                if oi < p {
                    assert(seq_less(l[oi].0, l[p as int].0));
                } else {
                    assert(seq_less(l[p as int].0, l[oi].0));
                }
                lemma_seq_less_irreflexive(name@);
            }
            assert forall|k: Seq<char>| #[trigger] m.contains_key(k) implies exists|i: int|
                0 <= i < nl.len() && nl[i].0 == k by {
                let oi = choose|oi: int| 0 <= oi < l.len() && l[oi].0 == k;
                if oi < p {
                    assert(nl[oi].0 == k);
                } else {
                    assert(nl[oi - 1].0 == k);
                }
            }
        }
        *self = Collection { entries, contents: Ghost(m) };
        true
    }
}

} // verus!
