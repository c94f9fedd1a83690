use vstd::prelude::*;
use ndarray::{Array1, Array2, Axis};
use crate::tags::{lemma_tags_finite, Tags};
use vstd::std_specs::cmp::PartialEqSpecImpl;

verus! {

broadcast use lemma_tags_finite;

/// Where a slide comes from: a horizontal photo, a vertical photo, or two
/// vertical photos shown together.
#[derive(Debug, Clone, Copy)]
pub enum PicType {
    H(usize),
    V(usize),
    VV(usize, usize),
}

/// A photo (or a pair of vertical photos) with its tags.
#[derive(Debug)]
pub struct Pic {
    pub tags: Tags,
    pub id: usize,
    pub source: PicType,
}

/// What a `Pic` is, with its tags as a mathematical set.
#[verifier::ext_equal]
pub struct PicModel {
    pub tags: Set<Seq<char>>,
    pub id: usize,
    pub source: PicType,
}

impl View for Pic {
    type V = PicModel;

    open spec fn view(&self) -> PicModel {
        PicModel { tags: self.tags@, id: self.id, source: self.source }
    }
}

pub type Pics = Vec<Pic>;

/// The models of a sequence of pictures.
pub open spec fn models(pics: Seq<Pic>) -> Seq<PicModel> {
    pics.map_values(|p: Pic| p@)
}

/// The smaller of two bytes.
pub open spec fn min_u8(a: u8, b: u8) -> u8 {
    if a <= b { a } else { b }
}

/// The interest of a transition from a slide with tags `a` to one with tags
/// `b`: the least of the number of tags only in `a`, in both, and only in `b`,
/// each count taken modulo 256.
pub open spec fn transition_score(a: Set<Seq<char>>, b: Set<Seq<char>>) -> u8 {
    min_u8(
        a.difference(b).len() as u8,
        min_u8(a.intersect(b).len() as u8, b.difference(a).len() as u8),
    )
}

/// The interest of a transition is none of the three counts exceeded: it is
/// at most the number of tags only in `a`, at most the number in both, and at
/// most the number only in `b` (each taken as a `u8`), and it is one of them.
pub proof fn lemma_transition_score_least(a: Set<Seq<char>>, b: Set<Seq<char>>)
    ensures
        transition_score(a, b) <= a.difference(b).len() as u8,
        transition_score(a, b) <= a.intersect(b).len() as u8,
        transition_score(a, b) <= b.difference(a).len() as u8,
        transition_score(a, b) == a.difference(b).len() as u8
            || transition_score(a, b) == a.intersect(b).len() as u8
            || transition_score(a, b) == b.difference(a).len() as u8,
{
}

/// The interest of a transition does not depend on its direction.
pub proof fn lemma_transition_score_symmetric(a: Set<Seq<char>>, b: Set<Seq<char>>)
    ensures
        transition_score(a, b) == transition_score(b, a),
{
    assert(a.intersect(b) =~= b.intersect(a));
}

/// A slide followed by a slide with the same tags is worth nothing.
pub proof fn lemma_transition_score_same(a: Set<Seq<char>>)
    requires
        a.finite(),
    ensures
        transition_score(a, a) == 0,
{
    assert(a.difference(a) =~= Set::<Seq<char>>::empty());
}

/// The total interest of a slideshow: the sum of the interests of its
/// consecutive transitions.
pub open spec fn show_score(ps: Seq<PicModel>) -> nat
    decreases ps.len(),
{
    if ps.len() < 2 {
        0
    } else {
        show_score(ps.drop_last()) + (transition_score(ps[ps.len() - 2].tags, ps[ps.len() - 1].tags) as nat)
    }
}

/// The interest of every ordered pair of pictures, row `i` holding the
/// transitions from picture `i`.
pub open spec fn pair_scores(ps: Seq<PicModel>) -> Seq<Seq<u8>> {
    Seq::new(ps.len(), |i: int| Seq::new(ps.len(), |j: int| transition_score(ps[i].tags, ps[j].tags)))
}

/// The table of all pairs is symmetric, and its diagonal is zero.
pub proof fn lemma_pair_scores_symmetric(ps: Seq<PicModel>)
    requires
        forall|i: int| 0 <= i < ps.len() ==> (#[trigger] ps[i]).tags.finite(),
    ensures
        forall|i: int, j: int|
            0 <= i < ps.len() && 0 <= j < ps.len() ==> #[trigger] pair_scores(ps)[i][j] == pair_scores(ps)[j][i],
        forall|i: int| 0 <= i < ps.len() ==> #[trigger] pair_scores(ps)[i][i] == 0,
{
    assert forall|i: int, j: int|
        0 <= i < ps.len() && 0 <= j < ps.len() implies #[trigger] pair_scores(ps)[i][j] == pair_scores(ps)[j][i] by {
        lemma_transition_score_symmetric(ps[i].tags, ps[j].tags);
    }
    assert forall|i: int| 0 <= i < ps.len() implies #[trigger] pair_scores(ps)[i][i] == 0 by {
        lemma_transition_score_same(ps[i].tags);
    }
}

/// The interest of a slideshow, counted from its first transition.
proof fn lemma_show_score_front(ps: Seq<PicModel>)
    requires
        ps.len() >= 2,
    ensures
        show_score(ps) == show_score(ps.drop_first()) + (transition_score(ps[0].tags, ps[1].tags) as nat),
    decreases ps.len(),
{
    if ps.len() > 2 {
        let n = ps.len();
        lemma_show_score_front(ps.drop_last());
        assert(ps.drop_last().drop_first() =~= ps.drop_first().drop_last());
        let d = ps.drop_first();
        assert(d[d.len() - 2] == ps[n - 2]);
        assert(d[d.len() - 1] == ps[n - 1]);
        assert(show_score(d) == show_score(d.drop_last()) + (transition_score(ps[n - 2].tags, ps[n - 1].tags) as nat));
        assert(ps.drop_last()[0] == ps[0]);
        assert(ps.drop_last()[1] == ps[1]);
    } else {
        assert(ps.drop_first().len() == 1);
        assert(show_score(ps.drop_first()) == 0);
        assert(ps.drop_last().len() == 1);
        assert(show_score(ps.drop_last()) == 0);
    }
}

/// A slideshow played backwards is worth as much.
pub proof fn lemma_show_score_reverse(ps: Seq<PicModel>)
    ensures
        show_score(ps.reverse()) == show_score(ps),
    decreases ps.len(),
{
    if ps.len() >= 2 {
        let r = ps.reverse();
        lemma_show_score_reverse(ps.drop_first());
        assert(r.drop_last() =~= ps.drop_first().reverse());
        assert(r[r.len() - 2] == ps[1]);
        assert(r[r.len() - 1] == ps[0]);
        lemma_transition_score_symmetric(ps[1].tags, ps[0].tags);
        lemma_show_score_front(ps);
    } else {
        assert(ps.reverse().len() == ps.len());
    }
}

/// The score of two slideshows shown one after the other is the sum of their
/// scores and of the transition from the last slide of the first to the first
/// slide of the second.
pub proof fn lemma_show_score_concat(a: Seq<PicModel>, b: Seq<PicModel>)
    requires
        a.len() > 0,
        b.len() > 0,
    ensures
        show_score(a + b) == show_score(a) + show_score(b) + (transition_score(
            a[a.len() - 1].tags,
            b[0].tags,
        ) as nat),
    decreases b.len(),
{
    let n = b.len();
    if n == 1 {
        assert((a + b).drop_last() =~= a);
        assert(show_score(b) == 0);
    } else {
        lemma_show_score_concat(a, b.drop_last());
        assert((a + b).drop_last() =~= a + b.drop_last());
        assert((a + b)[(a + b).len() - 2] == b[n - 2]);
        assert((a + b)[(a + b).len() - 1] == b[n - 1]);
    }
}

/// A longer prefix of a slideshow is worth at least as much.
pub proof fn lemma_show_score_prefix(ps: Seq<PicModel>, k: int)
    requires
        0 <= k <= ps.len(),
    ensures
        show_score(ps.take(k)) <= show_score(ps),
    decreases ps.len(),
{
    if k < ps.len() {
        lemma_show_score_prefix(ps.drop_last(), k);
        assert(ps.drop_last().take(k) =~= ps.take(k));
    } else {
        assert(ps.take(k) =~= ps);
    }
}

/// The scores of one picture against a list of pictures, backed by an
/// `ndarray::Array1<u8>`.
#[verifier::external_body]
pub struct ScoresArray {
    cells: Array1<u8>,
}

/// The cells of a `ScoresArray`, in order.
pub uninterp spec fn scores_array_cells(a: ScoresArray) -> Seq<u8>;

impl View for ScoresArray {
    type V = Seq<u8>;

    open spec fn view(&self) -> Seq<u8> {
        scores_array_cells(*self)
    }
}

impl ScoresArray {
    /// `Array1::zeros(n)`: an array of `n` zeros (it panics when `n`
    /// exceeds `isize::MAX`).
    #[verifier::external_body]
    pub(crate) fn zeros(n: usize) -> (r: ScoresArray)
        requires
            n <= isize::MAX,
        ensures
            scores_array_cells(r) == Seq::new(n as nat, |i: int| 0u8),
    {
        ScoresArray { cells: Array1::zeros(n) }
    }

    /// `IndexMut` of `Array1`: writes cell `i` (it panics out of bounds).
    #[verifier::external_body]
    pub(crate) fn set(&mut self, i: usize, v: u8)
        requires
            i < scores_array_cells(*old(self)).len(),
        ensures
            scores_array_cells(*final(self)) == scores_array_cells(*old(self)).update(i as int, v),
    {
        self.cells[i] = v;
    }

    /// `Array1::to_vec`: the cells in order.
    #[verifier::external_body]
    pub(crate) fn cells_to_vec(&self) -> (r: Vec<u8>)
        ensures
            r@ == scores_array_cells(*self),
    {
        self.cells.to_vec()
    }

    /// The cells, in order.
    pub fn to_vec(&self) -> (r: Vec<u8>)
        ensures
            r@ == self@,
    {
        self.cells_to_vec()
    }
}

/// A square table of transition scores, backed by an `ndarray::Array2<u8>`.
#[verifier::external_body]
pub struct ScoresMatrix {
    cells: Array2<u8>,
}

/// The rows of a `ScoresMatrix`, each a sequence of cells.
pub uninterp spec fn scores_matrix_rows(m: ScoresMatrix) -> Seq<Seq<u8>>;

impl View for ScoresMatrix {
    type V = Seq<Seq<u8>>;

    open spec fn view(&self) -> Seq<Seq<u8>> {
        scores_matrix_rows(*self)
    }
}

/// Whether `rows` has `n` rows of `n` cells.
pub open spec fn is_square(rows: Seq<Seq<u8>>, n: nat) -> bool {
    &&& rows.len() == n
    &&& forall|i: int| 0 <= i < n ==> #[trigger] rows[i].len() == n
}

impl ScoresMatrix {
    /// `Array2::zeros((n, n))`: `n` rows of `n` zeros (it panics when
    /// `n * n` exceeds `isize::MAX`).
    #[verifier::external_body]
    pub(crate) fn zeros(n: usize) -> (r: ScoresMatrix)
        requires
            n * n <= isize::MAX,
        ensures
            scores_matrix_rows(r) == Seq::new(n as nat, |i: int| Seq::new(n as nat, |j: int| 0u8)),
    {
        ScoresMatrix { cells: Array2::zeros((n, n)) }
    }

    /// `Index` of `Array2` at `[[i, j]]` (it panics out of bounds).
    #[verifier::external_body]
    pub(crate) fn at(&self, i: usize, j: usize) -> (r: u8)
        requires
            i < scores_matrix_rows(*self).len(),
            j < scores_matrix_rows(*self)[i as int].len(),
        ensures
            r == scores_matrix_rows(*self)[i as int][j as int],
    {
        self.cells[[i, j]]
    }

    /// `IndexMut` of `Array2` at `[[i, j]]`: writes one cell.
    #[verifier::external_body]
    pub(crate) fn set(&mut self, i: usize, j: usize, v: u8)
        requires
            i < scores_matrix_rows(*old(self)).len(),
            j < scores_matrix_rows(*old(self))[i as int].len(),
        ensures
            scores_matrix_rows(*final(self)) == scores_matrix_rows(*old(self)).update(
                i as int,
                scores_matrix_rows(*old(self))[i as int].update(j as int, v),
            ),
    {
        self.cells[[i, j]] = v;
    }

    /// `Array2::len_of(Axis(0))`: the number of rows.
    #[verifier::external_body]
    pub(crate) fn nrows(&self) -> (r: usize)
        ensures
            r == scores_matrix_rows(*self).len(),
    {
        self.cells.len_of(Axis(0))
    }

    /// `Array2::row(i).to_vec()`: the cells of row `i` (it panics out of
    /// bounds).
    #[verifier::external_body]
    pub(crate) fn row_to_vec(&self, i: usize) -> (r: Vec<u8>)
        requires
            i < scores_matrix_rows(*self).len(),
        ensures
            r@ == scores_matrix_rows(*self)[i as int],
    {
        self.cells.row(i).to_vec()
    }

    /// The number of rows.
    pub fn len(&self) -> (r: usize)
        ensures
            r == self@.len(),
    {
        self.nrows()
    }

    /// The cell at row `i` and column `j`, if there is one.
    pub fn get(&self, i: usize, j: usize) -> (r: Option<u8>)
        ensures
            r == (if i < self@.len() && j < self@[i as int].len() {
                Some(self@[i as int][j as int])
            } else {
                None::<u8>
            }),
    {
        if i < self.nrows() {
            let row = self.row_to_vec(i);
            if j < row.len() {
                return Some(self.at(i, j));
            }
        }
        None
    }
}

/// The smaller of two bytes.
fn smaller(a: u8, b: u8) -> (r: u8)
    ensures
        r == min_u8(a, b),
{
    if a <= b {
        a
    } else {
        b
    }
}

impl Clone for Pic {
    fn clone(&self) -> (r: Self)
        ensures
            r@ == self@,
    {
        Pic { tags: self.tags.clone(), id: self.id, source: self.source }
    }
}

impl PartialEq for Pic {
    fn eq(&self, other: &Pic) -> (r: bool) {
        match (self.source, other.source) {
            (PicType::H(sid), PicType::H(oid)) => sid == oid,
            (PicType::V(sid), PicType::V(oid)) => sid == oid,
            (PicType::VV(sid1, sid2), PicType::VV(oid1, oid2)) => sid1 == oid1 && sid2 == oid2,
            (_, _) => false,
        }
    }
}

impl PartialEqSpecImpl for Pic {
    open spec fn obeys_eq_spec() -> bool {
        true
    }

    open spec fn eq_spec(&self, other: &Pic) -> bool {
        self.source == other.source
    }
}

impl Eq for Pic {
}

impl Pic {
    /// The interest of the transition from `self` to `other`.
    pub fn score_with(&self, other: &Pic) -> (r: u8)
        ensures
            r == transition_score(self.tags@, other.tags@),
    {
        let a = &self.tags;
        let b = &other.tags;
        let a_not_b = a.difference(b).len() as u8;
        let a_and_b = a.intersection(b).len() as u8;
        let b_not_a = b.difference(a).len() as u8;
        smaller(a_not_b, smaller(a_and_b, b_not_a))
    }

    /// The slide that shows two vertical photos together. Its source records
    /// the id of `self` twice.
    pub fn combine_with(&self, other: &Pic, new_id: usize) -> (r: Pic)
        requires
            self.source is V,
            other.source is V,
        ensures
            r@ == (PicModel {
                tags: self.tags@.union(other.tags@),
                id: new_id,
                source: PicType::VV(self.id, self.id),
            }),
    {
        let source = PicType::VV(self.id, self.id);
        let tags = self.tags.union(&other.tags);
        Pic { id: new_id, tags, source }
    }

    /// The interest of the transition from `self` to each of `pics`.
    pub fn all_scores(&self, pics: &Pics) -> (r: ScoresArray)
        requires
            pics@.len() <= isize::MAX,
        ensures
            r@ == Seq::new(pics@.len(), |i: int| transition_score(self.tags@, pics@[i].tags@)),
    {
        let n = pics.len();
        let mut scores = ScoresArray::zeros(n);
        let mut idx: usize = 0;
        while idx < n
            invariant
                n == pics@.len(),
                idx <= n,
                scores@.len() == n,
                forall|k: int| 0 <= k < idx ==> scores@[k] == transition_score(self.tags@, pics@[k].tags@),
            decreases n - idx,
        {
            let score = self.score_with(&pics[idx]);
            scores.set(idx, score);
            idx = idx + 1;
        }
        assert(scores@ =~= Seq::new(pics@.len(), |i: int| transition_score(self.tags@, pics@[i].tags@)));
        scores
    }

    /// The tags that `self` and `other` share.
    pub fn intersect_with(&self, other: &Pic) -> (r: Tags)
        ensures
            r@ == self.tags@.intersect(other.tags@),
    {
        self.tags.intersection(&other.tags)
    }

    /// The first of `pics` that shares the fewest tags with `self`.
    pub fn min_intersection(&self, pics: &Pics) -> (r: Pic)
        requires
            pics@.len() > 0,
        ensures
            exists|k: int|
                0 <= k < pics@.len() && r@ == pics@[k]@ && (forall|j: int|
                    0 <= j < pics@.len() ==> common_count(self@, pics@[j]@) >= common_count(self@, pics@[k]@))
                    && (forall|j: int| 0 <= j < k ==> common_count(self@, pics@[j]@) > common_count(self@, pics@[k]@)),
    {
        let n = pics.len();
        let mut best: usize = 0;
        let mut min = self.intersect_with(&pics[0]).len();
        let mut i: usize = 0;
        while i < n
            invariant
                n == pics@.len(),
                n > 0,
                i <= n,
                best < n,
                min == common_count(self@, pics@[best as int]@),
                best == 0 || best < i,
                forall|j: int| 0 <= j < i ==> common_count(self@, pics@[j]@) >= min,
                forall|j: int| 0 <= j < best ==> common_count(self@, pics@[j]@) > min,
            decreases n - i,
        {
            let current = self.intersect_with(&pics[i]).len();
            if current < min {
                min = current;
                best = i;
            }
            i = i + 1;
        }
        pics[best].clone()
    }

    /// All the tags of `self` and `other`.
    pub fn union_with(&self, other: &Pic) -> (r: Tags)
        ensures
            r@ == self.tags@.union(other.tags@),
    {
        self.tags.union(&other.tags)
    }

    /// The id of the vertical photo that `self` is.
    pub fn source(&self) -> (r: usize)
        requires
            self.source is V,
        ensures
            self.source == PicType::V(r),
    {
        match self.source {
            PicType::V(id) => id,
            _ => 0,
        }
    }
}

/// The number of tags that two pictures share.
pub open spec fn common_count(a: PicModel, b: PicModel) -> nat {
    a.tags.intersect(b.tags).len()
}

/// The name under which a kind of picture is selected: "H", "V" or "VV".
pub open spec fn kind_name(source: PicType) -> Seq<char> {
    match source {
        PicType::H(_) => seq!['H'],
        PicType::V(_) => seq!['V'],
        PicType::VV(_, _) => seq!['V', 'V'],
    }
}

/// The character sequences of a list of string slices.
pub open spec fn str_views(v: Seq<&str>) -> Seq<Seq<char>> {
    v.map_values(|t: &str| t@)
}

/// The pictures of `ps` whose kind is named in `kinds`, in order.
pub open spec fn selected(ps: Seq<PicModel>, kinds: Seq<Seq<char>>) -> Seq<PicModel> {
    ps.filter(|p: PicModel| kinds.contains(kind_name(p.source)))
}

/// Which of the lists of kind names used below name the kind of `source`.
proof fn lemma_kind_named(source: PicType)
    ensures
        seq![seq!['H']].contains(kind_name(source)) == (source is H),
        seq![seq!['V']].contains(kind_name(source)) == (source is V),
        seq![seq!['V', 'V']].contains(kind_name(source)) == (source is VV),
        seq![seq!['H'], seq!['V'], seq!['V', 'V']].contains(kind_name(source)),
        !Seq::<Seq<char>>::empty().contains(kind_name(source)),
{
    let h = seq![seq!['H']];
    let v = seq![seq!['V']];
    let vv = seq![seq!['V', 'V']];
    let all = seq![seq!['H'], seq!['V'], seq!['V', 'V']];
    let k = kind_name(source);
    assert(seq!['H'][0] != seq!['V'][0]);
    assert(seq!['V'].len() != seq!['V', 'V'].len());
    assert(seq!['H'].len() != seq!['V', 'V'].len());
    if h.contains(k) {
        let i = choose|i: int| 0 <= i < h.len() && h[i] == k;
        assert(i == 0);
    }
    if v.contains(k) {
        let i = choose|i: int| 0 <= i < v.len() && v[i] == k;
        assert(i == 0);
    }
    if vv.contains(k) {
        let i = choose|i: int| 0 <= i < vv.len() && vv[i] == k;
        assert(i == 0);
    }
    match source {
        PicType::H(_) => {
            assert(h[0] == k);
            assert(all[0] == k);
        },
        PicType::V(_) => {
            assert(v[0] == k);
            assert(all[1] == k);
        },
        PicType::VV(_, _) => {
            assert(vv[0] == k);
            assert(all[2] == k);
        },
    }
}

/// Selecting the kinds "H", "V" and "VV" one at a time splits a list of
/// pictures: the three selections together are as long as the list, the
/// selection of all three kinds is the whole list, and the selection of no
/// kind is empty.
pub proof fn lemma_selection_partition(ps: Seq<PicModel>)
    ensures
        selected(ps, seq![seq!['H']]).len() + selected(ps, seq![seq!['V']]).len() + selected(
            ps,
            seq![seq!['V', 'V']],
        ).len() == ps.len(),
        selected(ps, seq![seq!['H'], seq!['V'], seq!['V', 'V']]) == ps,
        selected(ps, Seq::<Seq<char>>::empty()) == Seq::<PicModel>::empty(),
    decreases ps.len(),
{
    reveal_with_fuel(Seq::<_>::filter, 1);
    if ps.len() > 0 {
        lemma_selection_partition(ps.drop_last());
        lemma_kind_named(ps.last().source);
        assert(ps.drop_last().push(ps.last()) =~= ps);
    }
}

/// Whether `t` names the kind of `source`.
fn names_kind(t: &str, source: PicType) -> (r: bool)
    ensures
        r == (t@ == kind_name(source)),
{
    let n = t.unicode_len();
    let r = match source {
        PicType::H(_) => n == 1 && t.get_char(0) == 'H',
        PicType::V(_) => n == 1 && t.get_char(0) == 'V',
        PicType::VV(_, _) => n == 2 && t.get_char(0) == 'V' && t.get_char(1) == 'V',
    };
    proof {
        if r {
            assert(t@ =~= kind_name(source));
        }
    }
    r
}

/// Whether the kind of `source` is among `types`.
fn kind_listed(source: PicType, types: &Vec<&str>) -> (r: bool)
    ensures
        r == str_views(types@).contains(kind_name(source)),
{
    let n = types.len();
    let mut i: usize = 0;
    while i < n
        invariant
            n == types@.len(),
            i <= n,
            forall|k: int| 0 <= k < i ==> str_views(types@)[k] != kind_name(source),
        decreases n - i,
    {
        let t: &str = types[i];
        let hit = names_kind(t, source);
        if hit {
            assert(str_views(types@)[i as int] == kind_name(source));
            return true;
        }
        i = i + 1;
    }
    false
}

/// Operations on the total interest of a slideshow.
pub trait Score {
    /// The total interest of the slideshow.
    spec fn interest(&self) -> nat;

    /// Whether the table of all pairs can be filled: it fits in memory, and
    /// each of the bands in which it is filled starts within it.
    spec fn table_fits(&self) -> bool;

    /// The interest of every ordered pair of slides.
    spec fn table(&self) -> Seq<Seq<u8>>;

    /// The total interest; it must fit in a byte.
    fn score(&self) -> (r: u8)
        requires
            self.interest() <= u8::MAX,
        ensures
            r == self.interest(),
    ;

    /// The interest of every ordered pair of slides.
    fn scores_matrix(&self) -> (r: ScoresMatrix)
        requires
            self.table_fits(),
        ensures
            r@ == self.table(),
    ;
}

impl Score for Pics {
    open spec fn interest(&self) -> nat {
        show_score(models(self@))
    }

    open spec fn table_fits(&self) -> bool {
        &&& self@.len() * self@.len() <= isize::MAX
        &&& bands_fit(self@.len() as int)
    }

    open spec fn table(&self) -> Seq<Seq<u8>> {
        pair_scores(models(self@))
    }

    fn score(&self) -> (r: u8) {
        let ghost ps = models(self@);
        let n = self.len();
        if n < 2 {
            return 0;
        }
        let mut sum: u8 = 0;
        let mut i: usize = 1;
        assert(show_score(ps.take(1)) == 0);
        while i < n
            invariant
                ps == models(self@),
                n == self@.len(),
                1 <= i <= n,
                sum == show_score(ps.take(i as int)),
                show_score(ps) <= u8::MAX,
            decreases n - i,
        {
            proof {
                lemma_show_score_prefix(ps, i + 1);
                assert(ps.take(i + 1).drop_last() =~= ps.take(i as int));
            }
            sum = sum + self[i - 1].score_with(&self[i]);
            i = i + 1;
        }
        assert(ps.take(n as int) =~= ps);
        sum
    }

    fn scores_matrix(&self) -> (r: ScoresMatrix) {
        let ghost ps = models(self@);
        let threads: usize = 6;
        let len = self.len();
        let slice = len / threads + 1;
        let max_slice = (if threads - 1 < len {
            threads - 1
        } else {
            len
        }) + 1;
        let mut scores = ScoresMatrix::zeros(len);
        let mut tc: usize = 0;
        while tc < max_slice
            invariant
                ps == models(self@),
                len == self@.len(),
                len * len <= isize::MAX,
                bands_fit(len as int),
                slice == len / 6 + 1,
                max_slice == (if 5 < len { 5 } else { len }) + 1,
                tc <= max_slice,
                is_square(scores@, len as nat),
                forall|a: int, b: int|
                    0 <= a < band_end(len as int, tc as int) && 0 <= b < len ==> #[trigger] scores@[a][b]
                        == transition_score(ps[a].tags, ps[b].tags),
            decreases max_slice - tc,
        {
            assert(len <= isize::MAX) by (nonlinear_arith)
                requires
                    len * len <= isize::MAX,
                    tc < max_slice,
                    max_slice <= len + 1,
            ;
            assert(band_start(len as int, tc as int) <= len);
            assert(tc * slice == band_start(len as int, tc as int));
            assert((tc + 1) * slice <= len + 6) by (nonlinear_arith)
                requires
                    slice == len / 6 + 1,
                    tc + 1 <= 6,
            ;
            let start = tc * slice;
            let next = (tc + 1) * slice;
            let end = if len < next {
                len
            } else {
                next
            };
            assert(start <= end) by (nonlinear_arith)
                requires
                    start == tc * slice,
                    next == (tc + 1) * slice,
                    start <= len,
                    end == (if len < next { len } else { next }),
            ;
            assert(band_end(len as int, tc as int) == start);
            let mut idx = start;
            while idx < end
                invariant
                    ps == models(self@),
                    len == self@.len(),
                    len <= isize::MAX,
                    start <= idx <= end <= len,
                    is_square(scores@, len as nat),
                    forall|a: int, b: int|
                        0 <= a < idx && 0 <= b < len ==> #[trigger] scores@[a][b] == transition_score(
                            ps[a].tags,
                            ps[b].tags,
                        ),
                decreases end - idx,
            {
                let pic_scores = self[idx].all_scores(self).to_vec();
                let mut jdx: usize = 0;
                while jdx < len
                    invariant
                        ps == models(self@),
                        len == self@.len(),
                        idx < len,
                        jdx <= len,
                        pic_scores@ == Seq::new(
                            len as nat,
                            |k: int| transition_score(self@[idx as int].tags@, self@[k].tags@),
                        ),
                        is_square(scores@, len as nat),
                        forall|a: int, b: int|
                            0 <= a < idx && 0 <= b < len ==> #[trigger] scores@[a][b] == transition_score(
                                ps[a].tags,
                                ps[b].tags,
                            ),
                        forall|b: int|
                            0 <= b < jdx ==> #[trigger] scores@[idx as int][b] == transition_score(
                                ps[idx as int].tags,
                                ps[b].tags,
                            ),
                    decreases len - jdx,
                {
                    scores.set(idx, jdx, pic_scores[jdx]);
                    jdx = jdx + 1;
                }
                idx = idx + 1;
            }
            assert(band_end(len as int, tc + 1) == end);
            tc = tc + 1;
        }
        assert(band_end(len as int, max_slice as int) == len) by {
            assert(max_slice * slice >= len) by (nonlinear_arith)
                requires
                    slice == len / 6 + 1,
                    max_slice == (if 5 < len { 5 } else { len }) + 1,
            ;
        }
        assert(scores@ =~= pair_scores(ps)) by {
            assert forall|a: int| 0 <= a < len implies #[trigger] scores@[a] =~= pair_scores(ps)[a] by {
                assert forall|b: int| 0 <= b < len implies scores@[a][b] == pair_scores(ps)[a][b] by {
                    assert(scores@[a][b] == transition_score(ps[a].tags, ps[b].tags));
                }
            }
        }
        scores
    }
}

/// Where band `tc` of a table of `len` rows starts: the table is filled in
/// bands of `len / 6 + 1` rows.
pub open spec fn band_start(len: int, tc: int) -> int {
    tc * (len / 6 + 1)
}

/// Where band `tc - 1` ends, that is, how many rows the first `tc` bands
/// fill.
pub open spec fn band_end(len: int, tc: int) -> int {
    if len < band_start(len, tc) {
        len
    } else {
        band_start(len, tc)
    }
}

/// The table of `len` rows is filled in `min(5, len) + 1` bands, and each
/// of them starts within the table.
pub open spec fn bands_fit(len: int) -> bool {
    forall|tc: int|
        0 <= tc <= (if 5 < len {
            5
        } else {
            len
        }) ==> #[trigger] band_start(len, tc) <= len
}

/// Whether the total interest of `pics` fits in a `u8`, that is, whether
/// `score` may be called on it.
pub fn score_fits(pics: &Pics) -> (r: bool)
    ensures
        r == (show_score(models(pics@)) <= u8::MAX),
{
    let ghost ps = models(pics@);
    let n = pics.len();
    if n < 2 {
        return true;
    }
    let mut sum: u64 = 0;
    let mut i: usize = 1;
    assert(show_score(ps.take(1)) == 0);
    while i < n
        invariant
            ps == models(pics@),
            n == pics@.len(),
            1 <= i <= n,
            sum == show_score(ps.take(i as int)),
            sum <= u8::MAX,
        decreases n - i,
    {
        assert(ps.take(i + 1).drop_last() =~= ps.take(i as int));
        sum = sum + pics[i - 1].score_with(&pics[i]) as u64;
        if sum > u8::MAX as u64 {
            proof {
                lemma_show_score_prefix(ps, i + 1);
            }
            return false;
        }
        i = i + 1;
    }
    assert(ps.take(n as int) =~= ps);
    true
}

/// Renumbering and selecting the pictures of a list.
pub trait PicsFn {
    /// Gives each picture its position as id.
    fn reindex(&mut self);

    /// The pictures whose kind ("H", "V" or "VV") is listed in `types`, in
    /// order.
    fn filter(&self, types: Vec<&str>) -> Pics;
}

impl PicsFn for Pics {
    fn reindex(&mut self)
        ensures
            final(self)@.len() == old(self)@.len(),
            forall|i: int|
                0 <= i < old(self)@.len() ==> #[trigger] final(self)@[i]@ == (PicModel {
                    tags: old(self)@[i].tags@,
                    id: i as usize,
                    source: old(self)@[i].source,
                }),
    {
        let n = self.len();
        let mut idx: usize = 0;
        while idx < n
            invariant
                n == self@.len(),
                n == old(self)@.len(),
                idx <= n,
                forall|i: int|
                    0 <= i < idx ==> #[trigger] self@[i]@ == (PicModel {
                        tags: old(self)@[i].tags@,
                        id: i as usize,
                        source: old(self)@[i].source,
                    }),
                forall|i: int| idx <= i < n ==> #[trigger] self@[i]@ == old(self)@[i]@,
            decreases n - idx,
        {
            let ghost before = self@;
            self[idx].id = idx;
            assert(self@.len() == before.len());
            assert(self@[idx as int].id == idx);
            assert(self@[idx as int].tags == before[idx as int].tags);
            assert(forall|k: int| 0 <= k < n && k != idx ==> self@[k] == before[k]);
            assert(before[idx as int]@ == old(self)@[idx as int]@);
            assert(self@[idx as int]@ == (PicModel {
                tags: old(self)@[idx as int].tags@,
                id: idx,
                source: old(self)@[idx as int].source,
            }));
            idx = idx + 1;
        }
    }

    fn filter(&self, types: Vec<&str>) -> (r: Pics)
        ensures
            models(r@) == selected(models(self@), str_views(types@)),
    {
        let ghost pred = |p: PicModel| str_views(types@).contains(kind_name(p.source));
        let ghost ps = models(self@);
        let n = self.len();
        let mut r: Pics = Vec::new();
        let mut i: usize = 0;
        while i < n
            invariant
                n == self@.len(),
                ps == models(self@),
                pred == (|p: PicModel| str_views(types@).contains(kind_name(p.source))),
                i <= n,
                models(r@) == ps.take(i as int).filter(pred),
            decreases n - i,
        {
            proof {
                reveal_with_fuel(Seq::<_>::filter, 1);
                assert(ps.take(i + 1).drop_last() =~= ps.take(i as int));
            }
            if kind_listed(self[i].source, &types) {
                r.push(self[i].clone());
                assert(models(r@) =~= ps.take(i as int).filter(pred).push(ps[i as int]));
            }
            i = i + 1;
        }
        assert(ps.take(n as int) =~= ps);
        r
    }
}

} // verus!
