//! Trusted and excluded news sources: sets of source domains and the
//! engine's rules for changing them.

use vstd::prelude::*;
use crate::text::{str_equal, strings_view};

verus! {

/// A set of source domains, kept without repetitions.
pub struct SourceSet {
    items: Vec<String>,
}

impl SourceSet {
    /// The domains in the order they are held.
    pub closed spec fn elems(&self) -> Seq<Seq<char>> {
        strings_view(self.items@)
    }

    /// No domain is held twice.
    pub closed spec fn wf(&self) -> bool {
        self.elems().no_duplicates()
    }
}

impl View for SourceSet {
    type V = Set<Seq<char>>;

    closed spec fn view(&self) -> Set<Seq<char>> {
        self.elems().to_set()
    }
}

/// The set of the views of `v`.
pub open spec fn domain_set(v: Seq<String>) -> Set<Seq<char>> {
    strings_view(v).to_set()
}

proof fn lemma_view_contains(s: &SourceSet, x: Seq<char>)
    ensures
        s@.contains(x) <==> exists|i: int| 0 <= i < s.items@.len() && (#[trigger] s.items@[i])@ == x,
{
    if s@.contains(x) {
        let i = choose|i: int| 0 <= i < s.elems().len() && s.elems()[i] == x;
        assert(s.items@[i]@ == x);
    }
    if exists|i: int| 0 <= i < s.items@.len() && (#[trigger] s.items@[i])@ == x {
        let i = choose|i: int| 0 <= i < s.items@.len() && (#[trigger] s.items@[i])@ == x;
        assert(s.elems()[i] == x);
    }
}

impl SourceSet {
    /// The empty set.
    pub fn new() -> (r: SourceSet)
        ensures
            r.wf(),
            r@ == Set::<Seq<char>>::empty(),
    {
        let r = SourceSet { items: Vec::new() };
        proof {
            assert(r.elems() =~= Seq::<Seq<char>>::empty());
            assert(r@ =~= Set::<Seq<char>>::empty());
        }
        r
    }

    /// Whether `domain` is in the set.
    pub fn contains(&self, domain: &str) -> (r: bool)
        ensures
            r == self@.contains(domain@),
    {
        let mut i: usize = 0;
        while i < self.items.len()
            invariant
                i <= self.items@.len(),
                forall|k: int| 0 <= k < i ==> (#[trigger] self.items@[k])@ != domain@,
            decreases self.items@.len() - i,
        {
            if str_equal(self.items[i].as_str(), domain) {
                proof {
                    lemma_view_contains(self, domain@);
                }
                return true;
            }
            i = i + 1;
        }
        proof {
            lemma_view_contains(self, domain@);
        }
        false
    }

    /// The number of domains in the set.
    pub fn len(&self) -> (r: usize)
        requires
            self.wf(),
        ensures
            r == self@.len(),
    {
        proof {
            self.elems().unique_seq_to_set();
        }
        self.items.len()
    }

    /// Adds `domain`; returns whether it was not in the set before.
    pub fn insert(&mut self, domain: String) -> (r: bool)
        requires
            old(self).wf(),
        ensures
            final(self).wf(),
            r == !old(self)@.contains(domain@),
            final(self)@ == old(self)@.insert(domain@),
    {
        if self.contains(domain.as_str()) {
            proof {
                assert(self@.insert(domain@) =~= self@);
            }
            return false;
        }
        let ghost before = self.elems();
        self.items.push(domain);
        proof {
            assert(self.elems() =~= before.push(domain@));
            assert forall|i: int, j: int| 0 <= i < self.elems().len() && 0 <= j < self.elems().len() && i != j
                implies self.elems()[i] != self.elems()[j] by {
                if i == before.len() as int {
                    assert(before.contains(before[j]));
                } else if j == before.len() as int {
                    assert(before.contains(before[i]));
                }
            }
            assert forall|x: Seq<char>| self@.contains(x) <==> old(self)@.insert(domain@).contains(x) by {
                if self@.contains(x) && x != domain@ {
                    let k = choose|k: int| 0 <= k < self.elems().len() && self.elems()[k] == x;
                    assert(before[k] == x);
                }
                if old(self)@.contains(x) {
                    let k = choose|k: int| 0 <= k < before.len() && before[k] == x;
                    assert(self.elems()[k] == x);
                }
                if x == domain@ {
                    assert(self.elems()[before.len() as int] == x);
                }
            }
            assert(self@ =~= old(self)@.insert(domain@));
        }
        true
    }

    /// Removes `domain`; returns whether it was in the set.
    pub fn remove(&mut self, domain: &str) -> (r: bool)
        requires
            old(self).wf(),
        ensures
            final(self).wf(),
            r == old(self)@.contains(domain@),
            final(self)@ == old(self)@.remove(domain@),
    {
        let ghost before = self.elems();
        let mut i: usize = 0;
        while i < self.items.len()
            invariant
                before == self.elems(),
                before == old(self).elems(),
                before.no_duplicates(),
                i <= self.items@.len(),
                forall|k: int| 0 <= k < i ==> (#[trigger] self.items@[k])@ != domain@,
            decreases self.items@.len() - i,
        {
            if str_equal(self.items[i].as_str(), domain) {
                let _ = self.items.remove(i);
                proof {
                    assert(self.elems() =~= before.remove(i as int));
                    let after = self.elems();
                    assert forall|a: int, b: int| 0 <= a < after.len() && 0 <= b < after.len() && a != b
                        implies after[a] != after[b] by {
                        let a0 = if a < i { a } else { a + 1 };
                        let b0 = if b < i { b } else { b + 1 };
                        assert(after[a] == before[a0]);
                        assert(after[b] == before[b0]);
                    }
                    assert forall|x: Seq<char>| self@.contains(x) <==> old(self)@.remove(domain@).contains(x) by {
                        if self@.contains(x) {
                            let k = choose|k: int| 0 <= k < after.len() && after[k] == x;
                            let k0 = if k < i { k } else { k + 1 };
                            assert(before[k0] == x);
                            assert(before[i as int] == domain@);
                        }
                        if old(self)@.remove(domain@).contains(x) {
                            let k = choose|k: int| 0 <= k < before.len() && before[k] == x;
                            assert(k != i);
                            let k1 = if k < i { k } else { k - 1 };
                            assert(after[k1] == x);
                        }
                    }
                    assert(self@ =~= old(self)@.remove(domain@));
                    assert(before[i as int] == domain@);
                }
                return true;
            }
            i = i + 1;
        }
        proof {
            lemma_view_contains(self, domain@);
            assert(self@.remove(domain@) =~= self@);
        }
        false
    }

    /// The set of the domains of `items`, each once.
    pub fn from_vec(items: Vec<String>) -> (r: SourceSet)
        ensures
            r.wf(),
            r@ == domain_set(items@),
    {
        let mut r = SourceSet::new();
        let mut i: usize = 0;
        while i < items.len()
            invariant
                i <= items@.len(),
                r.wf(),
                r@ == strings_view(items@.subrange(0, i as int)).to_set(),
            decreases items@.len() - i,
        {
            let ghost prev = r@;
            r.insert(items[i].clone());
            proof {
                let s1 = strings_view(items@.subrange(0, i + 1));
                let s0 = strings_view(items@.subrange(0, i as int));
                assert(s1 =~= s0.push(items@[i as int]@));
                assert forall|x: Seq<char>| s1.to_set().contains(x) <==> prev.insert(items@[i as int]@).contains(x) by {
                    if s1.contains(x) && x != items@[i as int]@ {
                        let k = choose|k: int| 0 <= k < s1.len() && s1[k] == x;
                        assert(s0[k] == x);
                    }
                    if s0.contains(x) {
                        let k = choose|k: int| 0 <= k < s0.len() && s0[k] == x;
                        assert(s1[k] == x);
                    }
                    if x == items@[i as int]@ {
                        assert(s1[i as int] == x);
                    }
                }
                assert(r@ =~= s1.to_set());
            }
            i = i + 1;
        }
        proof {
            assert(items@.subrange(0, items@.len() as int) =~= items@);
        }
        r
    }

    /// The domains, each once, in the order they are held.
    pub fn to_vec(&self) -> (r: Vec<String>)
        requires
            self.wf(),
        ensures
            strings_view(r@).no_duplicates(),
            domain_set(r@) == self@,
    {
        let r = self.items.clone();
        proof {
            assert(strings_view(r@) =~= self.elems());
        }
        r
    }

    /// Whether both sets hold the same domains.
    pub fn same_as(&self, other: &SourceSet) -> (r: bool)
        ensures
            r == (self@ == other@),
    {
        let mut i: usize = 0;
        while i < self.items.len()
            invariant
                i <= self.items@.len(),
                forall|k: int| 0 <= k < i ==> other@.contains((#[trigger] self.items@[k])@),
            decreases self.items@.len() - i,
        {
            if !other.contains(self.items[i].as_str()) {
                proof {
                    lemma_view_contains(self, self.items@[i as int]@);
                    assert(self@.contains(self.items@[i as int]@));
                }
                return false;
            }
            i = i + 1;
        }
        let mut j: usize = 0;
        while j < other.items.len()
            invariant
                j <= other.items@.len(),
                forall|k: int| 0 <= k < j ==> self@.contains((#[trigger] other.items@[k])@),
            decreases other.items@.len() - j,
        {
            if !self.contains(other.items[j].as_str()) {
                proof {
                    lemma_view_contains(other, other.items@[j as int]@);
                    assert(other@.contains(other.items@[j as int]@));
                }
                return false;
            }
            j = j + 1;
        }
        proof {
            assert forall|x: Seq<char>| self@.contains(x) <==> other@.contains(x) by {
                lemma_view_contains(self, x);
                lemma_view_contains(other, x);
                if self@.contains(x) {
                    let k = choose|k: int| 0 <= k < self.items@.len() && (#[trigger] self.items@[k])@ == x;
                    assert(other@.contains(self.items@[k]@));
                }
                if other@.contains(x) {
                    let k = choose|k: int| 0 <= k < other.items@.len() && (#[trigger] other.items@[k])@ == x;
                    assert(self@.contains(other.items@[k]@));
                }
            }
            assert(self@ =~= other@);
        }
        true
    }

    /// Whether some domain is in both sets.
    pub fn intersects(&self, other: &SourceSet) -> (r: bool)
        ensures
            r == exists|x: Seq<char>| self@.contains(x) && other@.contains(x),
    {
        let mut i: usize = 0;
        while i < self.items.len()
            invariant
                i <= self.items@.len(),
                forall|k: int| 0 <= k < i ==> !other@.contains((#[trigger] self.items@[k])@),
            decreases self.items@.len() - i,
        {
            if other.contains(self.items[i].as_str()) {
                proof {
                    lemma_view_contains(self, self.items@[i as int]@);
                    assert(self@.contains(self.items@[i as int]@));
                }
                return true;
            }
            i = i + 1;
        }
        proof {
            assert forall|x: Seq<char>| !(self@.contains(x) && other@.contains(x)) by {
                lemma_view_contains(self, x);
                if self@.contains(x) {
                    let k = choose|k: int| 0 <= k < self.items@.len() && (#[trigger] self.items@[k])@ == x;
                    assert(!other@.contains(self.items@[k]@));
                }
            }
        }
        false
    }

    /// The domains of this set that are not in `other`.
    pub fn difference(&self, other: &SourceSet) -> (r: SourceSet)
        requires
            self.wf(),
        ensures
            r.wf(),
            r@ == self@.difference(other@),
    {
        let mut r = SourceSet::new();
        let mut i: usize = 0;
        while i < self.items.len()
            invariant
                i <= self.items@.len(),
                self.wf(),
                r.wf(),
                forall|x: Seq<char>| #[trigger] r@.contains(x) <==> (exists|k: int|
                    0 <= k < i && (#[trigger] self.items@[k])@ == x) && !other@.contains(x),
            decreases self.items@.len() - i,
        {
            let ghost prev = r@;
            if !other.contains(self.items[i].as_str()) {
                r.insert(self.items[i].clone());
            }
            proof {
                assert forall|x: Seq<char>| #[trigger] r@.contains(x) <==> (exists|k: int|
                    0 <= k < i + 1 && (#[trigger] self.items@[k])@ == x) && !other@.contains(x) by {
                    if (exists|k: int| 0 <= k < i + 1 && (#[trigger] self.items@[k])@ == x) && !other@.contains(x) {
                        let k = choose|k: int| 0 <= k < i + 1 && (#[trigger] self.items@[k])@ == x;
                        if k < i {
                            assert(prev.contains(x));
                        }
                    }
                    if prev.contains(x) {
                        let k = choose|k: int| 0 <= k < i && (#[trigger] self.items@[k])@ == x;
                        assert(0 <= k < i + 1);
                    }
                }
            }
            i = i + 1;
        }
        proof {
            assert forall|x: Seq<char>| r@.contains(x) <==> self@.difference(other@).contains(x) by {
                lemma_view_contains(self, x);
            }
            assert(r@ =~= self@.difference(other@));
        }
        r
    }
}

/// What adding a source to one list does to the other list.
pub enum SourceChange {
    /// The source was in the list already: nothing changes.
    Unchanged,
    /// The source was added; the other list keeps its domains.
    Added,
    /// The source was added and some of the other list's domains are now
    /// in this list: the other list becomes the given set.
    AddedAndMoved(SourceSet),
}

/// Adds `source` to `list`; `other` is the opposite list (excluded sources
/// for a trusted source and the reverse). A domain may not stay in both:
/// when the list and `other` share domains after the addition, the result
/// holds `other` without them.
pub fn add_source(list: &mut SourceSet, other: &SourceSet, source: String) -> (r: SourceChange)
    requires
        old(list).wf(),
        other.wf(),
    ensures
        final(list).wf(),
        final(list)@ == old(list)@.insert(source@),
        old(list)@.contains(source@) ==> r is Unchanged,
        !old(list)@.contains(source@) && final(list)@.disjoint(other@) ==> r is Added,
        !old(list)@.contains(source@) && !final(list)@.disjoint(other@) ==> (r matches SourceChange::AddedAndMoved(o)
            && o.wf() && o@ == other@.difference(final(list)@)),
{
    if !list.insert(source) {
        return SourceChange::Unchanged;
    }
    if list.intersects(other) {
        proof {
            let x = choose|x: Seq<char>| list@.contains(x) && other@.contains(x);
            assert(!list@.disjoint(other@));
        }
        SourceChange::AddedAndMoved(other.difference(list))
    } else {
        proof {
            assert(list@.disjoint(other@));
        }
        SourceChange::Added
    }
}

/// The new list of sources and whether it differs from the current one.
pub fn replace_sources(sources: Vec<String>, current: &SourceSet) -> (r: (SourceSet, bool))
    ensures
        r.0.wf(),
        r.0@ == domain_set(sources@),
        r.1 == (domain_set(sources@) != current@),
{
    let set = SourceSet::from_vec(sources);
    let same = set.same_as(current);
    (set, !same)
}

/// Adding a source that was not in a list and removing it again gives the
/// list back.
pub proof fn lemma_add_then_remove(list: Set<Seq<char>>, source: Seq<char>)
    requires
        !list.contains(source),
    ensures
        list.insert(source).remove(source) == list,
{
    assert(list.insert(source).remove(source) =~= list);
}

/// Adding a source twice changes the list once: the second addition leaves
/// it as the first left it.
pub proof fn lemma_add_idempotent(list: Set<Seq<char>>, source: Seq<char>)
    ensures
        list.insert(source).insert(source) == list.insert(source),
        list.insert(source).contains(source),
{
    assert(list.insert(source).insert(source) =~= list.insert(source));
}

/// After a source is added to one list, the two lists share no domain: the
/// other list either shared none with it already or is replaced by its
/// domains outside the list.
pub proof fn lemma_lists_stay_disjoint(list: Set<Seq<char>>, other: Set<Seq<char>>)
    ensures
        other.difference(list).disjoint(list),
        other.difference(list).subset_of(other),
{
    assert forall|x: Seq<char>| other.difference(list).contains(x) implies !list.contains(x) by {}
}

} // verus!
