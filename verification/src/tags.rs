use vstd::prelude::*;

verus! {

broadcast use {vstd::seq_lib::seq_to_set_is_finite, vstd::seq::Seq::lemma_push_to_set_commute};

/// The character sequences of a sequence of strings.
pub open spec fn views_of(v: Seq<String>) -> Seq<Seq<char>> {
    v.map_values(|s: String| s@)
}

/// The tags of a photo: a set of strings, kept as a vector in which no string
/// occurs twice.
#[derive(Debug)]
pub struct Tags {
    items: Vec<String>,
}

impl Tags {
    /// The tags in the order in which they are stored.
    pub closed spec fn words(&self) -> Seq<Seq<char>> {
        views_of(self.items@)
    }

    #[verifier::type_invariant]
    closed spec fn well_formed(&self) -> bool {
        self.words().no_duplicates()
    }
}

impl View for Tags {
    type V = Set<Seq<char>>;

    closed spec fn view(&self) -> Set<Seq<char>> {
        self.words().to_set()
    }
}

/// Every view of a set of tags is a finite set.
pub broadcast proof fn lemma_tags_finite(t: &Tags)
    ensures
        #[trigger] t@.finite(),
{
}

impl Tags {
    /// An empty set of tags.
    pub fn new() -> (r: Tags)
        ensures
            r@ == Set::<Seq<char>>::empty(),
    {
        let r = Tags { items: Vec::new() };
        assert(r.words() =~= Seq::<Seq<char>>::empty());
        assert(r@ =~= Set::<Seq<char>>::empty());
        r
    }

    /// The number of distinct tags.
    pub fn len(&self) -> (r: usize)
        ensures
            r == self@.len(),
    {
        proof {
            use_type_invariant(self);
            self.words().unique_seq_to_set();
        }
        self.items.len()
    }

    /// Whether there is no tag at all.
    pub fn is_empty(&self) -> (r: bool)
        ensures
            r == (self@.len() == 0),
    {
        self.len() == 0
    }

    /// Whether `tag` is one of the tags.
    pub fn contains(&self, tag: &String) -> (r: bool)
        ensures
            r == self@.contains(tag@),
    {
        let n = self.items.len();
        let mut i: usize = 0;
        while i < n
            invariant
                n == self.items@.len(),
                i <= n,
                forall|j: int| 0 <= j < i ==> self.words()[j] != tag@,
            decreases n - i,
        {
            if self.items[i] == *tag {
                assert(self.words()[i as int] == tag@);
                assert(self.words().contains(tag@));
                return true;
            }
            i = i + 1;
        }
        assert(!self.words().contains(tag@));
        false
    }

    /// Adds `tag`; returns whether it was not there yet.
    pub fn insert(&mut self, tag: String) -> (r: bool)
        ensures
            final(self)@ == old(self)@.insert(tag@),
            r == !old(self)@.contains(tag@),
    {
        proof {
            use_type_invariant(&*self);
        }
        if self.contains(&tag) {
            assert(self@.insert(tag@) =~= self@);
            return false;
        }
        let ghost old_words = self.words();
        let mut items = Vec::new();
        std::mem::swap(&mut items, &mut self.items);
        let ghost tv = tag@;
        items.push(tag);
        proof {
            let w = views_of(items@);
            assert(w =~= old_words.push(tv));
            assert(!old_words.contains(tv));
            assert(w.no_duplicates());
            assert(w.to_set() =~= old_words.to_set().insert(tv));
        }
        self.items = items;
        true
    }

    /// The strings of the tags, each once.
    pub fn to_vec(&self) -> (r: Vec<String>)
        ensures
            views_of(r@).to_set() == self@,
            views_of(r@).no_duplicates(),
            r@.len() == self@.len(),
    {
        proof {
            use_type_invariant(self);
            self.words().unique_seq_to_set();
        }
        let n = self.items.len();
        let mut r: Vec<String> = Vec::new();
        let mut i: usize = 0;
        while i < n
            invariant
                n == self.items@.len(),
                i <= n,
                views_of(r@) =~= self.words().take(i as int),
            decreases n - i,
        {
            r.push(self.items[i].clone());
            assert(self.words().take(i + 1) =~= self.words().take(i as int).push(self.words()[i as int]));
            i = i + 1;
        }
        assert(self.words().take(n as int) =~= self.words());
        r
    }

    /// The tags that are in both `self` and `other`.
    pub fn intersection(&self, other: &Tags) -> (r: Tags)
        ensures
            r@ == self@.intersect(other@),
    {
        self.select(other, true)
    }

    /// The tags of `self` that are not in `other`.
    pub fn difference(&self, other: &Tags) -> (r: Tags)
        ensures
            r@ == self@.difference(other@),
    {
        self.select(other, false)
    }

    /// The tags of `self` whose membership in `other` is `keep_common`.
    fn select(&self, other: &Tags, keep_common: bool) -> (r: Tags)
        ensures
            r@ == self@.filter(|w: Seq<char>| other@.contains(w) == keep_common),
            keep_common ==> r@ == self@.intersect(other@),
            !keep_common ==> r@ == self@.difference(other@),
    {
        proof {
            use_type_invariant(self);
        }
        let ghost pred = |w: Seq<char>| other@.contains(w) == keep_common;
        let n = self.items.len();
        let mut items: Vec<String> = Vec::new();
        let mut i: usize = 0;
        while i < n
            invariant
                n == self.items@.len(),
                i <= n,
                self.words().no_duplicates(),
                pred == (|w: Seq<char>| other@.contains(w) == keep_common),
                views_of(items@).no_duplicates(),
                views_of(items@).to_set() =~= self.words().take(i as int).to_set().filter(pred),
                forall|k: int| 0 <= k < items@.len() ==> self.words().take(i as int).contains(#[trigger] views_of(items@)[k]),
            decreases n - i,
        {
            let ghost before = views_of(items@);
            let ghost w = self.words()[i as int];
            assert(self.words().take(i + 1) =~= self.words().take(i as int).push(w));
            let common = other.contains(&self.items[i]);
            assert(w == self.items@[i as int]@);
            if common == keep_common {
                items.push(self.items[i].clone());
                proof {
                    let after = views_of(items@);
                    assert(after =~= before.push(w));
                    assert(!self.words().take(i as int).contains(w)) by {
                        if self.words().take(i as int).contains(w) {
                            let k = choose|k: int| 0 <= k < i && self.words().take(i as int)[k] == w;
                            assert(self.words()[k] == self.words()[i as int]);
                        }
                    }
                    assert(!before.contains(w)) by {
                        if before.contains(w) {
                            let k = choose|k: int| 0 <= k < before.len() && before[k] == w;
                            assert(self.words().take(i as int).contains(before[k]));
                        }
                    }
                    assert forall|k: int| 0 <= k < after.len() implies self.words().take(i + 1).contains(#[trigger] after[k]) by {
                        if k < before.len() {
                            assert(self.words().take(i as int).contains(before[k]));
                            let m = choose|m: int| 0 <= m < i && self.words().take(i as int)[m] == before[k];
                            assert(self.words().take(i + 1)[m] == before[k]);
                        } else {
                            assert(self.words().take(i + 1)[i as int] == w);
                        }
                    }
                    assert(after.to_set() =~= before.to_set().insert(w));
                    assert(self.words().take(i + 1).to_set() =~= self.words().take(i as int).to_set().insert(w));
                    assert(pred(w));
                    assert(self.words().take(i + 1).to_set().filter(pred) =~= self.words().take(i as int).to_set().filter(pred).insert(w));
                }
            } else {
                proof {
                    assert(self.words().take(i + 1).to_set() =~= self.words().take(i as int).to_set().insert(w));
                    assert(!pred(w));
                    assert(self.words().take(i + 1).to_set().filter(pred) =~= self.words().take(i as int).to_set().filter(pred));
                    assert forall|k: int| 0 <= k < before.len() implies self.words().take(i + 1).contains(#[trigger] before[k]) by {
                        assert(self.words().take(i as int).contains(before[k]));
                        let m = choose|m: int| 0 <= m < i && self.words().take(i as int)[m] == before[k];
                        assert(self.words().take(i + 1)[m] == before[k]);
                    }
                }
            }
            i = i + 1;
        }
        assert(self.words().take(n as int) =~= self.words());
        let r = Tags { items };
        assert(r@ =~= self@.filter(pred));
        assert(keep_common ==> self@.filter(pred) =~= self@.intersect(other@));
        assert(!keep_common ==> self@.filter(pred) =~= self@.difference(other@));
        r
    }

    /// The tags that are in `self` or in `other`.
    pub fn union(&self, other: &Tags) -> (r: Tags)
        ensures
            r@ == self@.union(other@),
    {
        let mut r = self.clone();
        let extra = other.to_vec();
        let n = extra.len();
        let mut i: usize = 0;
        while i < n
            invariant
                n == extra@.len(),
                i <= n,
                views_of(extra@).to_set() == other@,
                r@ == self@.union(views_of(extra@).take(i as int).to_set()),
            decreases n - i,
        {
            let ghost taken = views_of(extra@).take(i as int);
            let ghost w = extra@[i as int]@;
            r.insert(extra[i].clone());
            proof {
                assert(views_of(extra@).take(i + 1) =~= taken.push(w));
                assert(taken.push(w).to_set() =~= taken.to_set().insert(w));
                assert(r@ =~= self@.union(taken.push(w).to_set()));
            }
            i = i + 1;
        }
        assert(views_of(extra@).take(n as int) =~= views_of(extra@));
        r
    }
}

impl Clone for Tags {
    fn clone(&self) -> (r: Self)
        ensures
            r@ == self@,
    {
        proof {
            use_type_invariant(self);
        }
        let n = self.items.len();
        let mut items: Vec<String> = Vec::new();
        let mut i: usize = 0;
        while i < n
            invariant
                n == self.items@.len(),
                i <= n,
                views_of(items@) =~= self.words().take(i as int),
            decreases n - i,
        {
            items.push(self.items[i].clone());
            assert(self.words().take(i + 1) =~= self.words().take(i as int).push(self.words()[i as int]));
            i = i + 1;
        }
        assert(self.words().take(n as int) =~= self.words());
        Tags { items }
    }
}

} // verus!
