use vstd::prelude::*;
use ndarray::{Array2, Axis};
use crate::tags::lemma_tags_finite;
use crate::pic_type::{
    lemma_transition_score_same, lemma_transition_score_symmetric, models, transition_score, Pic,
    PicModel, PicType,
};

verus! {

broadcast use lemma_tags_finite;

pub type PicsVec = Vec<Pic>;

/// A list of pictures.
#[derive(Debug)]
pub struct Pics {
    pub items: PicsVec,
}

/// The total interest of a slideshow: the sum of the interests of its
/// consecutive transitions.
pub open spec fn show_score(ps: Seq<PicModel>) -> nat
    decreases ps.len(),
{
    if ps.len() < 2 {
        0
    } else {
        show_score(ps.drop_last()) + (transition_score(ps[ps.len() - 2].tags, ps[ps.len() - 1].tags) as nat)
    }
}

/// The interest of every ordered pair of pictures, row `i` holding the
/// transitions from picture `i`.
pub open spec fn pair_scores(ps: Seq<PicModel>) -> Seq<Seq<u16>> {
    Seq::new(ps.len(), |i: int| Seq::new(ps.len(), |j: int| transition_score(ps[i].tags, ps[j].tags)))
}

/// The table of all pairs is symmetric, and its diagonal is zero.
pub proof fn lemma_pair_scores_symmetric(ps: Seq<PicModel>)
    requires
        forall|i: int| 0 <= i < ps.len() ==> (#[trigger] ps[i]).tags.finite(),
    ensures
        forall|i: int, j: int|
            0 <= i < ps.len() && 0 <= j < ps.len() ==> #[trigger] pair_scores(ps)[i][j] == pair_scores(ps)[j][i],
        forall|i: int| 0 <= i < ps.len() ==> #[trigger] pair_scores(ps)[i][i] == 0,
{
    assert forall|i: int, j: int|
        0 <= i < ps.len() && 0 <= j < ps.len() implies #[trigger] pair_scores(ps)[i][j] == pair_scores(ps)[j][i] by {
        lemma_transition_score_symmetric(ps[i].tags, ps[j].tags);
    }
    assert forall|i: int| 0 <= i < ps.len() implies #[trigger] pair_scores(ps)[i][i] == 0 by {
        lemma_transition_score_same(ps[i].tags);
    }
}

/// The score of two slideshows shown one after the other is the sum of their
/// scores and of the transition from the last slide of the first to the first
/// slide of the second.
pub proof fn lemma_show_score_concat(a: Seq<PicModel>, b: Seq<PicModel>)
    requires
        a.len() > 0,
        b.len() > 0,
    ensures
        show_score(a + b) == show_score(a) + show_score(b) + (transition_score(
            a[a.len() - 1].tags,
            b[0].tags,
        ) as nat),
    decreases b.len(),
{
    let n = b.len();
    if n == 1 {
        assert((a + b).drop_last() =~= a);
        assert(show_score(b) == 0);
    } else {
        lemma_show_score_concat(a, b.drop_last());
        assert((a + b).drop_last() =~= a + b.drop_last());
        assert((a + b)[(a + b).len() - 2] == b[n - 2]);
        assert((a + b)[(a + b).len() - 1] == b[n - 1]);
    }
}

/// A longer prefix of a slideshow is worth at least as much.
pub proof fn lemma_show_score_prefix(ps: Seq<PicModel>, k: int)
    requires
        0 <= k <= ps.len(),
    ensures
        show_score(ps.take(k)) <= show_score(ps),
    decreases ps.len(),
{
    if k < ps.len() {
        lemma_show_score_prefix(ps.drop_last(), k);
        assert(ps.drop_last().take(k) =~= ps.take(k));
    } else {
        assert(ps.take(k) =~= ps);
    }
}

/// A square table of transition scores, backed by an `ndarray::Array2<u16>`.
#[verifier::external_body]
pub struct ScoresMatrix {
    cells: Array2<u16>,
}

/// The rows of a `ScoresMatrix`, each a sequence of cells.
pub uninterp spec fn scores_matrix_rows(m: ScoresMatrix) -> Seq<Seq<u16>>;

impl View for ScoresMatrix {
    type V = Seq<Seq<u16>>;

    open spec fn view(&self) -> Seq<Seq<u16>> {
        scores_matrix_rows(*self)
    }
}

/// Whether `rows` has `n` rows of `n` cells.
pub open spec fn is_square(rows: Seq<Seq<u16>>, n: nat) -> bool {
    &&& rows.len() == n
    &&& forall|i: int| 0 <= i < n ==> #[trigger] rows[i].len() == n
}

impl ScoresMatrix {
    /// `Array2::zeros((n, n))`: `n` rows of `n` zeros (it panics when
    /// `2 * n * n` exceeds `isize::MAX`).
    #[verifier::external_body]
    pub(crate) fn zeros(n: usize) -> (r: ScoresMatrix)
        requires
            2 * n * n <= isize::MAX,
        ensures
            scores_matrix_rows(r) == Seq::new(n as nat, |i: int| Seq::new(n as nat, |j: int| 0u16)),
    {
        ScoresMatrix { cells: Array2::zeros((n, n)) }
    }

    /// `Index` of `Array2` at `[[i, j]]` (it panics out of bounds).
    #[verifier::external_body]
    pub(crate) fn at(&self, i: usize, j: usize) -> (r: u16)
        requires
            i < scores_matrix_rows(*self).len(),
            j < scores_matrix_rows(*self)[i as int].len(),
        ensures
            r == scores_matrix_rows(*self)[i as int][j as int],
    {
        self.cells[[i, j]]
    }

    /// `IndexMut` of `Array2` at `[[i, j]]`: writes one cell.
    #[verifier::external_body]
    pub(crate) fn set(&mut self, i: usize, j: usize, v: u16)
        requires
            i < scores_matrix_rows(*old(self)).len(),
            j < scores_matrix_rows(*old(self))[i as int].len(),
        ensures
            scores_matrix_rows(*final(self)) == scores_matrix_rows(*old(self)).update(
                i as int,
                scores_matrix_rows(*old(self))[i as int].update(j as int, v),
            ),
    {
        self.cells[[i, j]] = v;
    }

    /// `Array2::len_of(Axis(0))`: the number of rows.
    #[verifier::external_body]
    pub(crate) fn nrows(&self) -> (r: usize)
        ensures
            r == scores_matrix_rows(*self).len(),
    {
        self.cells.len_of(Axis(0))
    }

    /// `Array2::row(i).to_vec()`: the cells of row `i` (it panics out of
    /// bounds).
    #[verifier::external_body]
    pub(crate) fn row_to_vec(&self, i: usize) -> (r: Vec<u16>)
        requires
            i < scores_matrix_rows(*self).len(),
        ensures
            r@ == scores_matrix_rows(*self)[i as int],
    {
        self.cells.row(i).to_vec()
    }

    /// The number of rows.
    pub fn len(&self) -> (r: usize)
        ensures
            r == self@.len(),
    {
        self.nrows()
    }

    /// The cell at row `i` and column `j`, if there is one.
    pub fn get(&self, i: usize, j: usize) -> (r: Option<u16>)
        ensures
            r == (if i < self@.len() && j < self@[i as int].len() {
                Some(self@[i as int][j as int])
            } else {
                None::<u16>
            }),
    {
        if i < self.nrows() {
            let row = self.row_to_vec(i);
            if j < row.len() {
                return Some(self.at(i, j));
            }
        }
        None
    }
}

/// The name under which a kind of picture is selected: "H", "V" or "VV".
pub open spec fn kind_name(source: PicType) -> Seq<char> {
    match source {
        PicType::H(_) => seq!['H'],
        PicType::V(_) => seq!['V'],
        PicType::VV(_, _) => seq!['V', 'V'],
    }
}

/// The character sequences of a list of string slices.
pub open spec fn str_views(v: Seq<&str>) -> Seq<Seq<char>> {
    v.map_values(|t: &str| t@)
}

/// The pictures of `ps` whose kind is named in `kinds`, in order.
pub open spec fn selected(ps: Seq<PicModel>, kinds: Seq<Seq<char>>) -> Seq<PicModel> {
    ps.filter(|p: PicModel| kinds.contains(kind_name(p.source)))
}

/// Which of the lists of kind names used below name the kind of `source`.
proof fn lemma_kind_named(source: PicType)
    ensures
        seq![seq!['H']].contains(kind_name(source)) == (source is H),
        seq![seq!['V']].contains(kind_name(source)) == (source is V),
        seq![seq!['V', 'V']].contains(kind_name(source)) == (source is VV),
        seq![seq!['H'], seq!['V'], seq!['V', 'V']].contains(kind_name(source)),
        !Seq::<Seq<char>>::empty().contains(kind_name(source)),
{
    let h = seq![seq!['H']];
    let v = seq![seq!['V']];
    let vv = seq![seq!['V', 'V']];
    let all = seq![seq!['H'], seq!['V'], seq!['V', 'V']];
    let k = kind_name(source);
    assert(seq!['H'][0] != seq!['V'][0]);
    assert(seq!['V'].len() != seq!['V', 'V'].len());
    assert(seq!['H'].len() != seq!['V', 'V'].len());
    if h.contains(k) {
        let i = choose|i: int| 0 <= i < h.len() && h[i] == k;
        assert(i == 0);
    }
    if v.contains(k) {
        let i = choose|i: int| 0 <= i < v.len() && v[i] == k;
        assert(i == 0);
    }
    if vv.contains(k) {
        let i = choose|i: int| 0 <= i < vv.len() && vv[i] == k;
        assert(i == 0);
    }
    match source {
        PicType::H(_) => {
            assert(h[0] == k);
            assert(all[0] == k);
        },
        PicType::V(_) => {
            assert(v[0] == k);
            assert(all[1] == k);
        },
        PicType::VV(_, _) => {
            assert(vv[0] == k);
            assert(all[2] == k);
        },
    }
}

/// Selecting the kinds "H", "V" and "VV" one at a time splits a list of
/// pictures: the three selections together are as long as the list, the
/// selection of all three kinds is the whole list, and the selection of no
/// kind is empty.
pub proof fn lemma_selection_partition(ps: Seq<PicModel>)
    ensures
        selected(ps, seq![seq!['H']]).len() + selected(ps, seq![seq!['V']]).len() + selected(
            ps,
            seq![seq!['V', 'V']],
        ).len() == ps.len(),
        selected(ps, seq![seq!['H'], seq!['V'], seq!['V', 'V']]) == ps,
        selected(ps, Seq::<Seq<char>>::empty()) == Seq::<PicModel>::empty(),
    decreases ps.len(),
{
    reveal_with_fuel(Seq::<_>::filter, 1);
    if ps.len() > 0 {
        lemma_selection_partition(ps.drop_last());
        lemma_kind_named(ps.last().source);
        assert(ps.drop_last().push(ps.last()) =~= ps);
    }
}

/// Whether `t` names the kind of `source`.
fn names_kind(t: &str, source: PicType) -> (r: bool)
    ensures
        r == (t@ == kind_name(source)),
{
    let n = t.unicode_len();
    let r = match source {
        PicType::H(_) => n == 1 && t.get_char(0) == 'H',
        PicType::V(_) => n == 1 && t.get_char(0) == 'V',
        PicType::VV(_, _) => n == 2 && t.get_char(0) == 'V' && t.get_char(1) == 'V',
    };
    proof {
        if r {
            assert(t@ =~= kind_name(source));
        }
    }
    r
}

/// Whether the kind of `source` is among `types`.
fn kind_listed(source: PicType, types: &Vec<&str>) -> (r: bool)
    ensures
        r == str_views(types@).contains(kind_name(source)),
{
    let n = types.len();
    let mut i: usize = 0;
    while i < n
        invariant
            n == types@.len(),
            i <= n,
            forall|k: int| 0 <= k < i ==> str_views(types@)[k] != kind_name(source),
        decreases n - i,
    {
        let t: &str = types[i];
        let hit = names_kind(t, source);
        if hit {
            assert(str_views(types@)[i as int] == kind_name(source));
            return true;
        }
        i = i + 1;
    }
    false
}

/// Selecting pictures by kind.
pub trait PicsFn {
    /// The pictures whose kind ("H", "V" or "VV") is listed in `types`, in
    /// order.
    fn filter(&self, types: Vec<&str>) -> PicsVec;
}

impl PicsFn for PicsVec {
    fn filter(&self, types: Vec<&str>) -> (r: PicsVec)
        ensures
            models(r@) == selected(models(self@), str_views(types@)),
    {
        let ghost pred = |p: PicModel| str_views(types@).contains(kind_name(p.source));
        let ghost ps = models(self@);
        let n = self.len();
        let mut r: PicsVec = Vec::new();
        let mut i: usize = 0;
        while i < n
            invariant
                n == self@.len(),
                ps == models(self@),
                pred == (|p: PicModel| str_views(types@).contains(kind_name(p.source))),
                i <= n,
                models(r@) == ps.take(i as int).filter(pred),
            decreases n - i,
        {
            proof {
                reveal_with_fuel(Seq::<_>::filter, 1);
                assert(ps.take(i + 1).drop_last() =~= ps.take(i as int));
            }
            if kind_listed(self[i].source, &types) {
                r.push(self[i].clone());
                assert(models(r@) =~= ps.take(i as int).filter(pred).push(ps[i as int]));
            }
            i = i + 1;
        }
        assert(ps.take(n as int) =~= ps);
        r
    }
}

/// Renumbering, scoring and tabulating a list of pictures.
pub trait PicsVecFn {
    /// The total interest of the slideshow.
    spec fn interest(&self) -> nat;

    /// Whether the table of all pairs can be filled.
    spec fn table_fits(&self) -> bool;

    /// The interest of every ordered pair of slides.
    spec fn table(&self) -> Seq<Seq<u16>>;

    /// Gives each picture its position as id.
    fn reindex(&mut self);

    /// The total interest; it must fit in a `u16`.
    fn score(&self) -> (r: u16)
        requires
            self.interest() <= u16::MAX,
        ensures
            r == self.interest(),
    ;

    /// The interest of every ordered pair of slides.
    fn scores_matrix(&self) -> (r: ScoresMatrix)
        requires
            self.table_fits(),
        ensures
            r@ == self.table(),
    ;
}

impl PicsVecFn for PicsVec {
    /// The sum of the interests of consecutive slides.
    open spec fn interest(&self) -> nat {
        show_score(models(self@))
    }

    /// Each row is filled from an array of 100 scores, so the table is filled
    /// only for none or exactly 100 pictures.
    open spec fn table_fits(&self) -> bool {
        self@.len() == 0 || self@.len() == 100
    }

    open spec fn table(&self) -> Seq<Seq<u16>> {
        pair_scores(models(self@))
    }

    fn reindex(&mut self)
        ensures
            final(self)@.len() == old(self)@.len(),
            forall|i: int|
                0 <= i < old(self)@.len() ==> #[trigger] final(self)@[i]@ == (PicModel {
                    tags: old(self)@[i].tags@,
                    id: i as usize,
                    source: old(self)@[i].source,
                }),
    {
        let n = self.len();
        let mut idx: usize = 0;
        while idx < n
            invariant
                n == self@.len(),
                n == old(self)@.len(),
                idx <= n,
                forall|i: int|
                    0 <= i < idx ==> #[trigger] self@[i]@ == (PicModel {
                        tags: old(self)@[i].tags@,
                        id: i as usize,
                        source: old(self)@[i].source,
                    }),
                forall|i: int| idx <= i < n ==> #[trigger] self@[i]@ == old(self)@[i]@,
            decreases n - idx,
        {
            let ghost before = self@;
            self[idx].id = idx;
            assert(forall|k: int| 0 <= k < n && k != idx ==> self@[k] == before[k]);
            assert(before[idx as int]@ == old(self)@[idx as int]@);
            assert(self@[idx as int]@ == (PicModel {
                tags: old(self)@[idx as int].tags@,
                id: idx,
                source: old(self)@[idx as int].source,
            }));
            idx = idx + 1;
        }
    }

    fn score(&self) -> (r: u16) {
        let ghost ps = models(self@);
        let n = self.len();
        if n < 2 {
            return 0;
        }
        let mut sum: u16 = 0;
        let mut i: usize = 1;
        assert(show_score(ps.take(1)) == 0);
        while i < n
            invariant
                ps == models(self@),
                n == self@.len(),
                1 <= i <= n,
                sum == show_score(ps.take(i as int)),
                show_score(ps) <= u16::MAX,
            decreases n - i,
        {
            proof {
                lemma_show_score_prefix(ps, i + 1);
                assert(ps.take(i + 1).drop_last() =~= ps.take(i as int));
            }
            sum = sum + self[i - 1].score_with(&self[i]);
            i = i + 1;
        }
        assert(ps.take(n as int) =~= ps);
        sum
    }

    fn scores_matrix(&self) -> (r: ScoresMatrix) {
        let ghost ps = models(self@);
        let len = self.len();
        let mut scores = ScoresMatrix::zeros(len);
        let pics = Pics { items: clone_pics(self) };
        let mut idx: usize = 0;
        while idx < len
            invariant
                ps == models(self@),
                ps == models(pics.items@),
                len == self@.len(),
                len == pics.items@.len(),
                len == 0 || len == 100,
                idx <= len,
                is_square(scores@, len as nat),
                forall|a: int, b: int|
                    0 <= a < idx && 0 <= b < len ==> #[trigger] scores@[a][b] == transition_score(
                        ps[a].tags,
                        ps[b].tags,
                    ),
            decreases len - idx,
        {
            let pic_scores = self[idx].all_scores(&pics).to_vec();
            let mut jdx: usize = 0;
            while jdx < 100
                invariant
                    ps == models(self@),
                    ps == models(pics.items@),
                    len == self@.len(),
                    len == pics.items@.len(),
                    len == 100,
                    idx < len,
                    jdx <= 100,
                    pic_scores@ == Seq::new(
                        100,
                        |k: int|
                            if k < pics.items@.len() {
                                transition_score(self@[idx as int].tags@, pics.items@[k].tags@)
                            } else {
                                0u16
                            },
                    ),
                    is_square(scores@, len as nat),
                    forall|a: int, b: int|
                        0 <= a < idx && 0 <= b < len ==> #[trigger] scores@[a][b] == transition_score(
                            ps[a].tags,
                            ps[b].tags,
                        ),
                    forall|b: int|
                        0 <= b < jdx ==> #[trigger] scores@[idx as int][b] == transition_score(
                            ps[idx as int].tags,
                            ps[b].tags,
                        ),
                decreases 100 - jdx,
            {
                scores.set(idx, jdx, pic_scores[jdx]);
                jdx = jdx + 1;
            }
            idx = idx + 1;
        }
        assert(scores@ =~= pair_scores(ps)) by {
            assert forall|a: int| 0 <= a < len implies #[trigger] scores@[a] =~= pair_scores(ps)[a] by {
                assert forall|b: int| 0 <= b < len implies scores@[a][b] == pair_scores(ps)[a][b] by {
                    assert(scores@[a][b] == transition_score(ps[a].tags, ps[b].tags));
                }
            }
        }
        scores
    }
}

/// Whether the total interest of `pics` fits in a `u16`, that is, whether
/// `score` may be called on it.
pub fn score_fits(pics: &PicsVec) -> (r: bool)
    ensures
        r == (show_score(models(pics@)) <= u16::MAX),
{
    let ghost ps = models(pics@);
    let n = pics.len();
    if n < 2 {
        return true;
    }
    let mut sum: u64 = 0;
    let mut i: usize = 1;
    assert(show_score(ps.take(1)) == 0);
    while i < n
        invariant
            ps == models(pics@),
            n == pics@.len(),
            1 <= i <= n,
            sum == show_score(ps.take(i as int)),
            sum <= u16::MAX,
        decreases n - i,
    {
        assert(ps.take(i + 1).drop_last() =~= ps.take(i as int));
        sum = sum + pics[i - 1].score_with(&pics[i]) as u64;
        if sum > u16::MAX as u64 {
            proof {
                lemma_show_score_prefix(ps, i + 1);
            }
            return false;
        }
        i = i + 1;
    }
    assert(ps.take(n as int) =~= ps);
    true
}

/// Copies of all the pictures of a list.
pub fn clone_pics(pics: &PicsVec) -> (r: PicsVec)
    ensures
        models(r@) == models(pics@),
{
    let n = pics.len();
    let mut r: PicsVec = Vec::new();
    let mut i: usize = 0;
    while i < n
        invariant
            n == pics@.len(),
            i <= n,
            models(r@) == models(pics@).take(i as int),
        decreases n - i,
    {
        let ghost before = models(r@);
        r.push(pics[i].clone());
        assert(models(r@) =~= before.push(models(pics@)[i as int]));
        assert(models(pics@).take(i + 1) =~= models(pics@).take(i as int).push(models(pics@)[i as int]));
        i = i + 1;
    }
    assert(models(pics@).take(n as int) =~= models(pics@));
    r
}

/// The pictures sharing no source with one another.
pub open spec fn distinct_sources(s: Seq<PicModel>) -> bool {
    forall|i: int, j: int| 0 <= i < j < s.len() ==> s[i].source != s[j].source
}

/// Whether some picture of `s` has source `src`.
pub open spec fn has_source(s: Seq<PicModel>, src: PicType) -> bool {
    exists|i: int| 0 <= i < s.len() && s[i].source == src
}

/// The position of the picture of `s` with source `src`.
pub open spec fn source_index(s: Seq<PicModel>, src: PicType) -> int {
    choose|i: int| 0 <= i < s.len() && s[i].source == src
}

/// `s` without its picture with source `src`, if it has one.
pub open spec fn without(s: Seq<PicModel>, src: PicType) -> Seq<PicModel> {
    if has_source(s, src) {
        s.remove(source_index(s, src))
    } else {
        s
    }
}

/// The pictures of `s`, each source kept only at its first occurrence.
pub open spec fn dedup_sources(s: Seq<PicModel>) -> Seq<PicModel>
    decreases s.len(),
{
    if s.len() == 0 {
        s
    } else {
        let d = dedup_sources(s.drop_last());
        if has_source(d, s.last().source) {
            d
        } else {
            d.push(s.last())
        }
    }
}

/// A set of pictures, two pictures being the same when they have the same
/// source; it keeps the order in which they came.
pub struct PicSet {
    pics: Pics,
}

impl PicSet {
    #[verifier::type_invariant]
    closed spec fn well_formed(&self) -> bool {
        distinct_sources(models(self.pics.items@))
    }
}

impl View for PicSet {
    type V = Seq<PicModel>;

    closed spec fn view(&self) -> Seq<PicModel> {
        models(self.pics.items@)
    }
}

impl PicSet {
    /// The set of the pictures of `items`.
    pub fn from_iter(items: PicsVec) -> (r: PicSet)
        ensures
            r@ == dedup_sources(models(items@)),
    {
        let ghost ps = models(items@);
        let n = items.len();
        let mut kept: PicsVec = Vec::new();
        let mut i: usize = 0;
        while i < n
            invariant
                n == items@.len(),
                ps == models(items@),
                i <= n,
                models(kept@) == dedup_sources(ps.take(i as int)),
                distinct_sources(models(kept@)),
            decreases n - i,
        {
            assert(ps.take(i + 1).drop_last() =~= ps.take(i as int));
            let ghost d = models(kept@);
            let found = position_of(&kept, items[i].source);
            if found.is_none() {
                kept.push(items[i].clone());
                assert(models(kept@) =~= d.push(ps[i as int]));
                assert(!has_source(d, ps[i as int].source));
                assert forall|a: int, b: int| 0 <= a < b < models(kept@).len() implies models(kept@)[a].source
                    != models(kept@)[b].source by {
                    if b == d.len() {
                        assert(d[a].source != ps[i as int].source);
                    }
                }
            } else {
                let j = found.unwrap();
                assert(d[j as int].source == ps[i as int].source);
                assert(has_source(d, ps[i as int].source));
            }
            i = i + 1;
        }
        assert(ps.take(n as int) =~= ps);
        PicSet { pics: Pics { items: kept } }
    }

    /// Removes the picture with the source of `pic`; returns whether there
    /// was one.
    pub fn remove(&mut self, pic: &Pic) -> (r: bool)
        ensures
            final(self)@ == without(old(self)@, pic.source),
            r == has_source(old(self)@, pic.source),
    {
        proof {
            use_type_invariant(&*self);
        }
        let ghost s = self@;
        match position_of(&self.pics.items, pic.source) {
            Some(i) => {
                proof {
                    let j = source_index(s, pic.source);
                    if j != i {
                        if j < i {
                            assert(s[j].source != s[i as int].source);
                        } else {
                            assert(s[i as int].source != s[j].source);
                        }
                    }
                }
                let mut items = Vec::new();
                std::mem::swap(&mut items, &mut self.pics.items);
                items.remove(i);
                proof {
                    assert(models(items@) =~= s.remove(i as int));
                    assert forall|a: int, b: int| 0 <= a < b < models(items@).len() implies models(items@)[a].source
                        != models(items@)[b].source by {
                        let a2 = if a < i { a } else { a + 1 };
                        let b2 = if b < i { b } else { b + 1 };
                        assert(s[a2].source != s[b2].source);
                    }
                }
                self.pics.items = items;
                true
            },
            None => false,
        }
    }

    /// Whether the set is empty.
    pub fn is_empty(&self) -> (r: bool)
        ensures
            r == (self@.len() == 0),
    {
        self.pics.items.len() == 0
    }

    /// The number of pictures.
    pub fn len(&self) -> (r: usize)
        ensures
            r == self@.len(),
    {
        self.pics.items.len()
    }

    /// The pictures, in order.
    pub fn as_pics(&self) -> (r: &Pics)
        ensures
            models(r.items@) == self@,
    {
        &self.pics
    }

    /// A copy of the pictures, in order.
    pub fn to_pics(&self) -> (r: Pics)
        ensures
            models(r.items@) == self@,
    {
        Pics { items: clone_pics(&self.pics.items) }
    }
}

/// The position of the picture with source `src`, if there is one.
fn position_of(items: &PicsVec, src: PicType) -> (r: Option<usize>)
    ensures
        r is None ==> !has_source(models(items@), src),
        r matches Some(i) ==> i < items@.len() && items@[i as int].source == src,
{
    let n = items.len();
    let mut i: usize = 0;
    while i < n
        invariant
            n == items@.len(),
            i <= n,
            forall|j: int| 0 <= j < i ==> #[trigger] items@[j].source != src,
        decreases n - i,
    {
        if same_source(items[i].source, src) {
            return Some(i);
        }
        i = i + 1;
    }
    proof {
        if has_source(models(items@), src) {
            let j = choose|j: int| 0 <= j < n && models(items@)[j].source == src;
            assert(items@[j].source != src);
        }
    }
    None
}

/// Whether two sources are the same.
fn same_source(a: PicType, b: PicType) -> (r: bool)
    ensures
        r == (a == b),
{
    match (a, b) {
        (PicType::H(x), PicType::H(y)) => x == y,
        (PicType::V(x), PicType::V(y)) => x == y,
        (PicType::VV(x1, x2), PicType::VV(y1, y2)) => x1 == y1 && x2 == y2,
        (_, _) => false,
    }
}

} // verus!
