use vstd::prelude::*;
use ndarray::Array1;
use crate::tags::{lemma_tags_finite, Tags};
use crate::pics_type::Pics;
use vstd::std_specs::cmp::PartialEqSpecImpl;

verus! {

broadcast use lemma_tags_finite;

/// Where a slide comes from: a horizontal photo, a vertical photo, or two
/// vertical photos shown together.
#[derive(Debug, Clone, Copy)]
pub enum PicType {
    H(usize),
    V(usize),
    VV(usize, usize),
}

/// A photo (or a pair of vertical photos) with its tags.
#[derive(Debug)]
pub struct Pic {
    pub tags: Tags,
    pub id: usize,
    pub source: PicType,
}

/// What a `Pic` is, with its tags as a mathematical set.
#[verifier::ext_equal]
pub struct PicModel {
    pub tags: Set<Seq<char>>,
    pub id: usize,
    pub source: PicType,
}

impl View for Pic {
    type V = PicModel;

    open spec fn view(&self) -> PicModel {
        PicModel { tags: self.tags@, id: self.id, source: self.source }
    }
}

/// The models of a sequence of pictures.
pub open spec fn models(pics: Seq<Pic>) -> Seq<PicModel> {
    pics.map_values(|p: Pic| p@)
}

/// The smaller of two numbers.
pub open spec fn min_u16(a: u16, b: u16) -> u16 {
    if a <= b { a } else { b }
}

/// The interest of a transition from a slide with tags `a` to one with tags
/// `b`: the least of the number of tags only in `a`, in both, and only in `b`,
/// each count taken modulo 65536.
pub open spec fn transition_score(a: Set<Seq<char>>, b: Set<Seq<char>>) -> u16 {
    min_u16(
        a.difference(b).len() as u16,
        min_u16(a.intersect(b).len() as u16, b.difference(a).len() as u16),
    )
}

/// The interest of a transition is none of the three counts exceeded: it is
/// at most the number of tags only in `a`, at most the number in both, and at
/// most the number only in `b` (each taken as a `u16`), and it is one of them.
pub proof fn lemma_transition_score_least(a: Set<Seq<char>>, b: Set<Seq<char>>)
    ensures
        transition_score(a, b) <= a.difference(b).len() as u16,
        transition_score(a, b) <= a.intersect(b).len() as u16,
        transition_score(a, b) <= b.difference(a).len() as u16,
        transition_score(a, b) == a.difference(b).len() as u16
            || transition_score(a, b) == a.intersect(b).len() as u16
            || transition_score(a, b) == b.difference(a).len() as u16,
{
}

/// The interest of a transition does not depend on its direction.
pub proof fn lemma_transition_score_symmetric(a: Set<Seq<char>>, b: Set<Seq<char>>)
    ensures
        transition_score(a, b) == transition_score(b, a),
{
    assert(a.intersect(b) =~= b.intersect(a));
}

/// A slide followed by a slide with the same tags is worth nothing.
pub proof fn lemma_transition_score_same(a: Set<Seq<char>>)
    requires
        a.finite(),
    ensures
        transition_score(a, a) == 0,
{
    assert(a.difference(a) =~= Set::<Seq<char>>::empty());
}

/// The scores of one picture against a list of pictures, backed by an
/// `ndarray::Array1<u16>`.
#[verifier::external_body]
pub struct ScoresArray {
    cells: Array1<u16>,
}

/// The cells of a `ScoresArray`, in order.
pub uninterp spec fn scores_array_cells(a: ScoresArray) -> Seq<u16>;

impl View for ScoresArray {
    type V = Seq<u16>;

    open spec fn view(&self) -> Seq<u16> {
        scores_array_cells(*self)
    }
}

impl ScoresArray {
    /// `Array1::zeros(n)`: an array of `n` zeros (it panics when `2 * n`
    /// exceeds `isize::MAX`).
    #[verifier::external_body]
    pub(crate) fn zeros(n: usize) -> (r: ScoresArray)
        requires
            2 * n <= isize::MAX,
        ensures
            scores_array_cells(r) == Seq::new(n as nat, |i: int| 0u16),
    {
        ScoresArray { cells: Array1::zeros(n) }
    }

    /// `IndexMut` of `Array1`: writes cell `i` (it panics out of bounds).
    #[verifier::external_body]
    pub(crate) fn set(&mut self, i: usize, v: u16)
        requires
            i < scores_array_cells(*old(self)).len(),
        ensures
            scores_array_cells(*final(self)) == scores_array_cells(*old(self)).update(i as int, v),
    {
        self.cells[i] = v;
    }

    /// `Array1::to_vec`: the cells in order.
    #[verifier::external_body]
    pub(crate) fn cells_to_vec(&self) -> (r: Vec<u16>)
        ensures
            r@ == scores_array_cells(*self),
    {
        self.cells.to_vec()
    }

    /// The cells, in order.
    pub fn to_vec(&self) -> (r: Vec<u16>)
        ensures
            r@ == self@,
    {
        self.cells_to_vec()
    }
}

/// The smaller of two numbers.
fn smaller(a: u16, b: u16) -> (r: u16)
    ensures
        r == min_u16(a, b),
{
    if a <= b {
        a
    } else {
        b
    }
}

impl Clone for Pic {
    fn clone(&self) -> (r: Self)
        ensures
            r@ == self@,
    {
        Pic { tags: self.tags.clone(), id: self.id, source: self.source }
    }
}

impl PartialEq for Pic {
    fn eq(&self, other: &Pic) -> (r: bool) {
        match (self.source, other.source) {
            (PicType::H(sid), PicType::H(oid)) => sid == oid,
            (PicType::V(sid), PicType::V(oid)) => sid == oid,
            (PicType::VV(sid1, sid2), PicType::VV(oid1, oid2)) => sid1 == oid1 && sid2 == oid2,
            (_, _) => false,
        }
    }
}

impl PartialEqSpecImpl for Pic {
    open spec fn obeys_eq_spec() -> bool {
        true
    }

    open spec fn eq_spec(&self, other: &Pic) -> bool {
        self.source == other.source
    }
}

impl Eq for Pic {
}

impl Pic {
    /// The interest of the transition from `self` to `other`.
    pub fn score_with(&self, other: &Pic) -> (r: u16)
        ensures
            r == transition_score(self.tags@, other.tags@),
    {
        let a = &self.tags;
        let b = &other.tags;
        let a_not_b = a.difference(b).len() as u16;
        let a_and_b = a.intersection(b).len() as u16;
        let b_not_a = b.difference(a).len() as u16;
        smaller(a_not_b, smaller(a_and_b, b_not_a))
    }

    /// The slide that shows two vertical photos together. Its source records
    /// the id of `self` twice.
    pub fn combine_with(&self, other: &Pic, new_id: usize) -> (r: Pic)
        requires
            self.source is V,
            other.source is V,
        ensures
            r@ == (PicModel {
                tags: self.tags@.union(other.tags@),
                id: new_id,
                source: PicType::VV(self.id, self.id),
            }),
    {
        let source = PicType::VV(self.id, self.id);
        let tags = self.tags.union(&other.tags);
        Pic { id: new_id, tags, source }
    }

    /// The interest of the transition from `self` to each of `pics`, in an
    /// array of 100 cells whose unused cells hold 0.
    pub fn all_scores(&self, pics: &Pics) -> (r: ScoresArray)
        requires
            pics.items@.len() <= 100,
        ensures
            r@ == Seq::new(
                100,
                |i: int|
                    if i < pics.items@.len() {
                        transition_score(self.tags@, pics.items@[i].tags@)
                    } else {
                        0u16
                    },
            ),
    {
        let mut scores = ScoresArray::zeros(100);
        let n = pics.items.len();
        let mut idx: usize = 0;
        while idx < n
            invariant
                n == pics.items@.len(),
                n <= 100,
                idx <= n,
                scores@.len() == 100,
                forall|k: int| 0 <= k < idx ==> scores@[k] == transition_score(self.tags@, pics.items@[k].tags@),
                forall|k: int| idx <= k < 100 ==> scores@[k] == 0,
            decreases n - idx,
        {
            let score = self.score_with(&pics.items[idx]);
            scores.set(idx, score);
            idx = idx + 1;
        }
        assert(scores@ =~= Seq::new(
            100,
            |i: int|
                if i < pics.items@.len() {
                    transition_score(self.tags@, pics.items@[i].tags@)
                } else {
                    0u16
                },
        ));
        scores
    }

    /// The tags that `self` and `other` share.
    pub fn intersect_with(&self, other: &Pic) -> (r: Tags)
        ensures
            r@ == self.tags@.intersect(other.tags@),
    {
        self.tags.intersection(&other.tags)
    }

    /// The first of `pics` that shares the fewest tags with `self`, among
    /// those that share fewer than 9999; `self` when there is none.
    pub fn min_intersection(&self, pics: Pics) -> (r: Pic)
        ensures
            r@ == min_intersection_of(self@, models(pics.items@)),
    {
        let mut min_pic = self.clone();
        let mut min: usize = 9999;
        let ghost mut best: int = -1;
        let n = pics.items.len();
        let mut i: usize = 0;
        while i < n
            invariant
                n == pics.items@.len(),
                i <= n,
                -1 <= best < i,
                best == -1 ==> min == 9999 && min_pic@ == self@,
                best >= 0 ==> min == common_count(self@, pics.items@[best]@) && min_pic@ == pics.items@[best]@
                    && min < 9999,
                forall|j: int| 0 <= j < i ==> common_count(self@, pics.items@[j]@) >= min,
                forall|j: int| 0 <= j < best ==> common_count(self@, pics.items@[j]@) > min,
            decreases n - i,
        {
            let current = self.intersect_with(&pics.items[i]).len();
            if current < min {
                min = current;
                min_pic = pics.items[i].clone();
                proof {
                    best = i as int;
                }
            }
            i = i + 1;
        }
        proof {
            let ps = models(pics.items@);
            if best >= 0 {
                assert(is_min_choice(self@, ps, best));
                let k = choose|k: int| is_min_choice(self@, ps, k);
                lemma_min_choice_unique(self@, ps, k, best);
            } else {
                assert forall|j: int| 0 <= j < ps.len() implies common_count(self@, ps[j]) >= 9999 by {
                    assert(common_count(self@, pics.items@[j]@) >= min);
                }
            }
        }
        min_pic
    }

    /// All the tags of `self` and `other`.
    pub fn union_with(&self, other: &Pic) -> (r: Tags)
        ensures
            r@ == self.tags@.union(other.tags@),
    {
        self.tags.union(&other.tags)
    }

    /// The id of the vertical photo that `self` is.
    pub fn source(&self) -> (r: usize)
        requires
            self.source is V,
        ensures
            self.source == PicType::V(r),
    {
        match self.source {
            PicType::V(id) => id,
            _ => 0,
        }
    }

    /// The picture of `pics` that makes the best transition from `self`.
    pub fn best_match(self, pics: &Pics) -> (r: Pic)
        ensures
            r@ == best_match_scan(self@, models(pics.items@), pics.items@.len() as int).1,
    {
        let ghost ps = models(pics.items@);
        let mut best_score: u16 = 0;
        let mut best_other = self.clone();
        let n = pics.items.len();
        let mut i: usize = 0;
        while i < n
            invariant
                n == pics.items@.len(),
                ps == models(pics.items@),
                i <= n,
                (best_score, best_other@) == best_match_scan(self@, ps, i as int),
            decreases n - i,
        {
            let other = &pics.items[i];
            let other_score = self.score_with(other);
            if best_other == self || other_score > best_score {
                best_score = other_score;
                best_other = other.clone();
            }
            i = i + 1;
        }
        best_other
    }
}

/// The state of the scan for the best match of `me` after the first `k` of
/// `ps`: the best score so far and the picture holding it. A picture is taken
/// when it scores strictly higher, or whenever the one held has the source of
/// `me`.
pub open spec fn best_match_scan(me: PicModel, ps: Seq<PicModel>, k: int) -> (u16, PicModel)
    decreases k,
{
    if k <= 0 {
        (0u16, me)
    } else {
        let prev = best_match_scan(me, ps, k - 1);
        let s = transition_score(me.tags, ps[k - 1].tags);
        if prev.1.source == me.source || s > prev.0 {
            (s, ps[k - 1])
        } else {
            prev
        }
    }
}

/// With pictures to scan, the best match is one of them.
pub proof fn lemma_best_match_member(me: PicModel, ps: Seq<PicModel>, k: int)
    requires
        1 <= k <= ps.len(),
    ensures
        exists|j: int| 0 <= j < k && best_match_scan(me, ps, k).1 == ps[j],
    decreases k,
{
    if k > 1 {
        lemma_best_match_member(me, ps, k - 1);
    }
    let prev = best_match_scan(me, ps, k - 1);
    let s = transition_score(me.tags, ps[k - 1].tags);
    if prev.1.source == me.source || s > prev.0 {
        assert(best_match_scan(me, ps, k).1 == ps[k - 1]);
    }
}

/// After the first `k` pictures, when none of them has the source of `me`,
/// the scan holds one of them, its score is that picture's transition score
/// from `me`, and no picture among them scores higher.
proof fn lemma_best_match_scan_max(me: PicModel, ps: Seq<PicModel>, k: int)
    requires
        1 <= k <= ps.len(),
        forall|j: int| 0 <= j < k ==> #[trigger] ps[j].source != me.source,
    ensures
        exists|i: int| 0 <= i < k && best_match_scan(me, ps, k).1 == ps[i],
        best_match_scan(me, ps, k).0 == transition_score(me.tags, best_match_scan(me, ps, k).1.tags),
        forall|j: int|
            0 <= j < k ==> transition_score(me.tags, #[trigger] ps[j].tags) <= best_match_scan(me, ps, k).0,
    decreases k,
{
    if k > 1 {
        lemma_best_match_scan_max(me, ps, k - 1);
        let i = choose|i: int| 0 <= i < k - 1 && best_match_scan(me, ps, k - 1).1 == ps[i];
        assert(ps[i].source != me.source);
        if transition_score(me.tags, ps[k - 1].tags) > best_match_scan(me, ps, k - 1).0 {
            assert(best_match_scan(me, ps, k).1 == ps[k - 1]);
        } else {
            assert(best_match_scan(me, ps, k) == best_match_scan(me, ps, k - 1));
        }
    } else {
        assert(best_match_scan(me, ps, 0) == (0u16, me));
        assert(best_match_scan(me, ps, 1).1 == ps[0]);
    }
}

/// When no picture of `ps` has the source of `me`, the best match of `me` is a
/// picture of `ps` whose transition score from `me` is at least that of every
/// picture of `ps`.
pub proof fn lemma_best_match_is_best(me: PicModel, ps: Seq<PicModel>)
    requires
        ps.len() > 0,
        forall|j: int| 0 <= j < ps.len() ==> #[trigger] ps[j].source != me.source,
    ensures
        ps.contains(best_match_scan(me, ps, ps.len() as int).1),
        forall|j: int|
            0 <= j < ps.len() ==> transition_score(me.tags, #[trigger] ps[j].tags) <= transition_score(
                me.tags,
                best_match_scan(me, ps, ps.len() as int).1.tags,
            ),
{
    lemma_best_match_scan_max(me, ps, ps.len() as int);
}

/// `k` is the first of `s` that shares the fewest tags with `me`, and it
/// shares fewer than 9999.
pub open spec fn is_min_choice(me: PicModel, s: Seq<PicModel>, k: int) -> bool {
    &&& 0 <= k < s.len()
    &&& common_count(me, s[k]) < 9999
    &&& forall|j: int| 0 <= j < s.len() ==> common_count(me, s[j]) >= common_count(me, s[k])
    &&& forall|j: int| 0 <= j < k ==> common_count(me, s[j]) > common_count(me, s[k])
}

/// The first of `s` that shares the fewest tags with `me`, among those that
/// share fewer than 9999; `me` when there is none.
pub open spec fn min_intersection_of(me: PicModel, s: Seq<PicModel>) -> PicModel {
    if exists|j: int| 0 <= j < s.len() && common_count(me, s[j]) < 9999 {
        s[choose|k: int| is_min_choice(me, s, k)]
    } else {
        me
    }
}

/// `i` is the first of the first `k` pictures of `s` that shares the fewest
/// tags with `me`.
spec fn first_least_upto(me: PicModel, s: Seq<PicModel>, k: int, i: int) -> bool {
    &&& 0 <= i < k
    &&& forall|j: int| 0 <= j < k ==> common_count(me, #[trigger] s[j]) >= common_count(me, s[i])
    &&& forall|j: int| 0 <= j < i ==> common_count(me, #[trigger] s[j]) > common_count(me, s[i])
}

/// Among the first `k` pictures of `s` there is a first one that shares the
/// fewest tags with `me`.
proof fn lemma_first_least_sharer(me: PicModel, s: Seq<PicModel>, k: int)
    requires
        1 <= k <= s.len(),
    ensures
        exists|i: int| #[trigger] first_least_upto(me, s, k, i),
    decreases k,
{
    if k == 1 {
        assert(first_least_upto(me, s, 1, 0));
    } else {
        lemma_first_least_sharer(me, s, k - 1);
        let i = choose|i: int| #[trigger] first_least_upto(me, s, k - 1, i);
        if common_count(me, s[k - 1]) < common_count(me, s[i]) {
            assert(first_least_upto(me, s, k, k - 1));
        } else {
            assert(first_least_upto(me, s, k, i));
        }
    }
}

/// The least sharer of `me` in `s` is a picture of `s`, or `me` itself when
/// no picture of `s` shares fewer than 9999 tags with it.
pub proof fn lemma_min_intersection_member(me: PicModel, s: Seq<PicModel>)
    ensures
        s.contains(min_intersection_of(me, s)) || min_intersection_of(me, s) == me,
        (exists|j: int| 0 <= j < s.len() && common_count(me, s[j]) < 9999) ==> exists|k: int|
            is_min_choice(me, s, k),
{
    if exists|j: int| 0 <= j < s.len() && common_count(me, s[j]) < 9999 {
        let j0 = choose|j: int| 0 <= j < s.len() && common_count(me, s[j]) < 9999;
        lemma_first_least_sharer(me, s, s.len() as int);
        let i = choose|i: int| #[trigger] first_least_upto(me, s, s.len() as int, i);
        assert(common_count(me, s[j0]) >= common_count(me, s[i]));
        assert(is_min_choice(me, s, i));
        let k = choose|k: int| is_min_choice(me, s, k);
        assert(s[k] == min_intersection_of(me, s));
    }
}

/// When some picture of `s` shares fewer than 9999 tags with `me`, the least
/// sharer is a picture of `s` that shares no more tags with `me` than any
/// picture of `s`, and no earlier picture shares as few; otherwise it is `me`.
pub proof fn lemma_min_intersection_least(me: PicModel, s: Seq<PicModel>)
    ensures
        (exists|j: int| 0 <= j < s.len() && common_count(me, s[j]) < 9999) ==> {
            &&& s.contains(min_intersection_of(me, s))
            &&& forall|j: int|
                0 <= j < s.len() ==> common_count(me, #[trigger] s[j]) >= common_count(me, min_intersection_of(me, s))
        },
        !(exists|j: int| 0 <= j < s.len() && common_count(me, s[j]) < 9999) ==> min_intersection_of(me, s) == me,
{
    if exists|j: int| 0 <= j < s.len() && common_count(me, s[j]) < 9999 {
        lemma_min_intersection_member(me, s);
        let k = choose|k: int| is_min_choice(me, s, k);
        assert(is_min_choice(me, s, k));
        assert(s[k] == min_intersection_of(me, s));
    }
}

/// There is at most one first least sharer.
pub proof fn lemma_min_choice_unique(me: PicModel, s: Seq<PicModel>, k1: int, k2: int)
    requires
        is_min_choice(me, s, k1),
        is_min_choice(me, s, k2),
    ensures
        k1 == k2,
{
    if k1 < k2 {
        assert(common_count(me, s[k1]) > common_count(me, s[k2]));
    } else if k2 < k1 {
        assert(common_count(me, s[k2]) > common_count(me, s[k1]));
    }
}

/// The number of tags that two pictures share.
pub open spec fn common_count(a: PicModel, b: PicModel) -> nat {
    a.tags.intersect(b.tags).len()
}


} // verus!
