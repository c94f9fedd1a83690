use vstd::prelude::*;
use crate::tags::lemma_tags_finite;
use crate::types::{
    bands_fit, is_square, models, pair_scores, transition_score, Pic, PicModel, PicType, Pics, PicsFn, Score,
    ScoresMatrix,
};
use ndarray::Array1;

verus! {

broadcast use lemma_tags_finite;

/// Up to this many pictures, any sum of transition scores fits in a `u32`.
pub const SUM_LIMIT: usize = 16843009;

/// The sum of a sequence of bytes.
pub open spec fn bytes_sum(s: Seq<u8>) -> nat
    decreases s.len(),
{
    if s.len() == 0 {
        0
    } else {
        bytes_sum(s.drop_last()) + (s.last() as nat)
    }
}

/// The sum of the bytes of two sequences written one after the other is the
/// sum of their sums, and a single byte sums to itself.
pub proof fn lemma_bytes_sum_concat(a: Seq<u8>, b: Seq<u8>)
    ensures
        bytes_sum(a + b) == bytes_sum(a) + bytes_sum(b),
        b.len() == 1 ==> bytes_sum(b) == b[0] as nat,
    decreases b.len(),
{
    if b.len() == 0 {
        assert(a + b =~= a);
    } else {
        lemma_bytes_sum_concat(a, b.drop_last());
        assert((a + b).drop_last() =~= a + b.drop_last());
        assert((a + b).last() == b.last());
        if b.len() == 1 {
            assert(b.drop_last() =~= Seq::<u8>::empty());
        }
    }
}

/// The interest of the transition from `a` to `b`: read from the table when
/// both ids are below `axis_len`, computed from the tags otherwise.
pub open spec fn pair_score_at(a: PicModel, b: PicModel, axis_len: int, rows: Seq<Seq<u8>>) -> u8 {
    if a.id < axis_len && b.id < axis_len {
        rows[a.id as int][b.id as int]
    } else {
        transition_score(a.tags, b.tags)
    }
}

/// The interest of the transition from `a` to `b`, with the whole table in use.
pub open spec fn pair_score(a: PicModel, b: PicModel, rows: Seq<Seq<u8>>) -> u8 {
    pair_score_at(a, b, rows.len() as int, rows)
}

/// The sum of the interests of all transitions from `p`: its row of the table
/// when its id is below `axis_len`, its scores against `ps` otherwise.
pub open spec fn score_sum_at(p: PicModel, axis_len: int, rows: Seq<Seq<u8>>, ps: Seq<PicModel>) -> nat {
    if p.id < axis_len {
        bytes_sum(rows[p.id as int])
    } else {
        bytes_sum(Seq::new(ps.len(), |k: int| transition_score(p.tags, ps[k].tags)))
    }
}

/// The sum of the interests of all transitions from `p`, with the whole table
/// in use.
pub open spec fn score_sum_of(p: PicModel, rows: Seq<Seq<u8>>, ps: Seq<PicModel>) -> nat {
    score_sum_at(p, rows.len() as int, rows, ps)
}

/// The table is square, and neither it nor the pictures are so large that a
/// sum of scores could overflow.
pub open spec fn search_bounds(ps: Seq<PicModel>, rows: Seq<Seq<u8>>) -> bool {
    &&& is_square(rows, rows.len())
    &&& rows.len() <= SUM_LIMIT
    &&& ps.len() <= SUM_LIMIT
}

// ---------------------------------------------------------------------------
// Choosing the slide that follows a complete slide.
/// The last index below `k` whose score from `pic` beats that of the first
/// picture, or -1.
pub open spec fn last_above(pic: PicModel, ps: Seq<PicModel>, rows: Seq<Seq<u8>>, k: int) -> int
    decreases k,
{
    if k <= 0 {
        -1
    } else if pair_score(pic, ps[k - 1], rows) > pair_score(pic, ps[0], rows) {
        k - 1
    } else {
        last_above(pic, ps, rows, k - 1)
    }
}

/// The pictures that may follow `pic`: the first one, and those after the last
/// one that beats it whose score ties with it.
pub open spec fn is_candidate(pic: PicModel, ps: Seq<PicModel>, rows: Seq<Seq<u8>>, i: int) -> bool {
    ||| i == 0
    ||| last_above(pic, ps, rows, ps.len() as int) < i < ps.len() && pair_score(pic, ps[i], rows)
        == pair_score(pic, ps[0], rows)
}

/// `c` is the candidate with the least score sum, the first picture winning
/// ties, then the lowest index.
pub open spec fn is_complete_choice(pic: PicModel, ps: Seq<PicModel>, rows: Seq<Seq<u8>>, c: int) -> bool {
    &&& 0 <= c < ps.len()
    &&& is_candidate(pic, ps, rows, c)
    &&& forall|d: int|
        0 <= d < ps.len() && is_candidate(pic, ps, rows, d) ==> score_sum_of(ps[d], rows, ps)
            >= score_sum_of(ps[c], rows, ps)
    &&& c != 0 ==> score_sum_of(ps[0], rows, ps) > score_sum_of(ps[c], rows, ps)
    &&& c != 0 ==> forall|d: int|
        0 < d < c && is_candidate(pic, ps, rows, d) ==> score_sum_of(ps[d], rows, ps) > score_sum_of(
            ps[c],
            rows,
            ps,
        )
}

/// The index of the slide that follows the complete slide `pic`.
pub open spec fn complete_choice(pic: PicModel, ps: Seq<PicModel>, rows: Seq<Seq<u8>>) -> int {
    choose|c: int| is_complete_choice(pic, ps, rows, c)
}

/// There is at most one complete choice.
proof fn lemma_complete_choice_unique(pic: PicModel, ps: Seq<PicModel>, rows: Seq<Seq<u8>>, c1: int, c2: int)
    requires
        is_complete_choice(pic, ps, rows, c1),
        is_complete_choice(pic, ps, rows, c2),
    ensures
        c1 == c2,
{
    if c1 != c2 {
        if c1 == 0 {
            assert(score_sum_of(ps[0], rows, ps) > score_sum_of(ps[c2], rows, ps));
        } else if c2 == 0 {
            assert(score_sum_of(ps[0], rows, ps) > score_sum_of(ps[c1], rows, ps));
        } else if c1 < c2 {
            assert(score_sum_of(ps[c1], rows, ps) > score_sum_of(ps[c2], rows, ps));
        } else {
            assert(score_sum_of(ps[c2], rows, ps) > score_sum_of(ps[c1], rows, ps));
        }
    }
}

/// `i` is, among the candidates below `k`, the first with the least score sum.
spec fn first_least_candidate(pic: PicModel, ps: Seq<PicModel>, rows: Seq<Seq<u8>>, k: int, i: int) -> bool {
    &&& 0 <= i < k
    &&& is_candidate(pic, ps, rows, i)
    &&& forall|d: int|
        0 <= d < k && is_candidate(pic, ps, rows, d) ==> score_sum_of(#[trigger] ps[d], rows, ps) >= score_sum_of(
            ps[i],
            rows,
            ps,
        )
    &&& forall|d: int|
        0 <= d < i && is_candidate(pic, ps, rows, d) ==> score_sum_of(#[trigger] ps[d], rows, ps) > score_sum_of(
            ps[i],
            rows,
            ps,
        )
}

proof fn lemma_first_least_candidate(pic: PicModel, ps: Seq<PicModel>, rows: Seq<Seq<u8>>, k: int)
    requires
        1 <= k <= ps.len(),
    ensures
        exists|i: int| #[trigger] first_least_candidate(pic, ps, rows, k, i),
    decreases k,
{
    if k == 1 {
        assert(first_least_candidate(pic, ps, rows, 1, 0));
    } else {
        lemma_first_least_candidate(pic, ps, rows, k - 1);
        let i = choose|i: int| #[trigger] first_least_candidate(pic, ps, rows, k - 1, i);
        if is_candidate(pic, ps, rows, k - 1) && score_sum_of(ps[k - 1], rows, ps) < score_sum_of(ps[i], rows, ps) {
            assert(first_least_candidate(pic, ps, rows, k, k - 1));
        } else {
            assert(first_least_candidate(pic, ps, rows, k, i));
        }
    }
}

/// With pictures left, the slide after a complete slide is well defined.
proof fn lemma_complete_choice_exists(pic: PicModel, ps: Seq<PicModel>, rows: Seq<Seq<u8>>)
    requires
        ps.len() > 0,
    ensures
        is_complete_choice(pic, ps, rows, complete_choice(pic, ps, rows)),
{
    lemma_first_least_candidate(pic, ps, rows, ps.len() as int);
    let i = choose|i: int| #[trigger] first_least_candidate(pic, ps, rows, ps.len() as int, i);
    if score_sum_of(ps[i], rows, ps) == score_sum_of(ps[0], rows, ps) {
        assert(is_complete_choice(pic, ps, rows, 0));
    } else {
        assert(is_complete_choice(pic, ps, rows, i));
    }
}

/// After a slide that is not a lone vertical photo, with pictures left, the
/// next slide is a picture left whose transition score from it ties with that
/// of the first picture left, and whose score sum is no greater than that of
/// the first picture left or of any other picture left that ties with the
/// first after the last one that beats it.
pub proof fn lemma_complete_next(pic: PicModel, ps: Seq<PicModel>, rows: Seq<Seq<u8>>)
    requires
        !(pic.source is V),
        ps.len() > 0,
    ensures
        match next_move(pic, ps, rows) {
            Move::Idx(c) => {
                &&& 0 <= c < ps.len()
                &&& pair_score(pic, ps[c], rows) == pair_score(pic, ps[0], rows)
                &&& score_sum_of(ps[c], rows, ps) <= score_sum_of(ps[0], rows, ps)
                &&& forall|d: int|
                    0 <= d < ps.len() && pair_score(pic, #[trigger] ps[d], rows) == pair_score(pic, ps[0], rows)
                        && (forall|e: int| d < e < ps.len() ==> pair_score(pic, #[trigger] ps[e], rows) <= pair_score(
                        pic,
                        ps[0],
                        rows,
                    )) ==> score_sum_of(ps[d], rows, ps) >= score_sum_of(ps[c], rows, ps)
            },
            _ => false,
        },
{
    lemma_complete_choice_exists(pic, ps, rows);
    lemma_last_above(pic, ps, rows, ps.len() as int);
    let c = complete_choice(pic, ps, rows);
    let la = last_above(pic, ps, rows, ps.len() as int);
    assert(next_move(pic, ps, rows) == Move::Idx(c));
    assert(is_candidate(pic, ps, rows, 0));
    assert(score_sum_of(ps[0], rows, ps) >= score_sum_of(ps[c], rows, ps));
    assert(pair_score(pic, ps[c], rows) == pair_score(pic, ps[0], rows));
    assert forall|d: int|
        0 <= d < ps.len() && pair_score(pic, #[trigger] ps[d], rows) == pair_score(pic, ps[0], rows) && (forall|e: int|
            d < e < ps.len() ==> pair_score(pic, #[trigger] ps[e], rows) <= pair_score(
            pic,
            ps[0],
            rows,
        )) implies score_sum_of(ps[d], rows, ps) >= score_sum_of(ps[c], rows, ps) by {
        if d != 0 && d <= la {
            if d < la {
                assert(pair_score(pic, ps[la], rows) <= pair_score(pic, ps[0], rows));
            }
        }
        assert(is_candidate(pic, ps, rows, d));
    }
}

/// The indices in `[lo, hi)` whose score from `pic` ties with that of the
/// first picture, in increasing order.
spec fn ties(pic: PicModel, ps: Seq<PicModel>, rows: Seq<Seq<u8>>, lo: int, hi: int) -> Seq<int>
    decreases hi - lo,
{
    if hi <= lo {
        Seq::empty()
    } else {
        let t = ties(pic, ps, rows, lo, hi - 1);
        if pair_score(pic, ps[hi - 1], rows) == pair_score(pic, ps[0], rows) {
            t.push(hi - 1)
        } else {
            t
        }
    }
}

proof fn lemma_ties(pic: PicModel, ps: Seq<PicModel>, rows: Seq<Seq<u8>>, lo: int, hi: int)
    requires
        0 <= lo,
        hi <= ps.len(),
    ensures
        forall|k: int|
            0 <= k < ties(pic, ps, rows, lo, hi).len() ==> lo <= #[trigger] ties(pic, ps, rows, lo, hi)[k]
                < hi && pair_score(pic, ps[ties(pic, ps, rows, lo, hi)[k]], rows) == pair_score(pic, ps[0], rows),
        forall|k: int, l: int|
            0 <= k < l < ties(pic, ps, rows, lo, hi).len() ==> #[trigger] ties(pic, ps, rows, lo, hi)[k]
                < #[trigger] ties(pic, ps, rows, lo, hi)[l],
        forall|i: int|
            lo <= i < hi && pair_score(pic, ps[i], rows) == pair_score(pic, ps[0], rows) ==> #[trigger] ties(
                pic,
                ps,
                rows,
                lo,
                hi,
            ).contains(i),
    decreases hi - lo,
{
    if hi > lo {
        lemma_ties(pic, ps, rows, lo, hi - 1);
        let t = ties(pic, ps, rows, lo, hi - 1);
        if pair_score(pic, ps[hi - 1], rows) == pair_score(pic, ps[0], rows) {
            assert(t.push(hi - 1)[t.len() as int] == hi - 1);
            assert forall|i: int|
                lo <= i < hi && pair_score(pic, ps[i], rows) == pair_score(pic, ps[0], rows) implies #[trigger] ties(
                pic,
                ps,
                rows,
                lo,
                hi,
            ).contains(i) by {
                if i < hi - 1 {
                    assert(t.contains(i));
                    let k = choose|k: int| 0 <= k < t.len() && t[k] == i;
                    assert(t.push(hi - 1)[k] == i);
                }
            }
        }
    }
}

proof fn lemma_last_above(pic: PicModel, ps: Seq<PicModel>, rows: Seq<Seq<u8>>, k: int)
    requires
        0 <= k <= ps.len(),
    ensures
        -1 <= last_above(pic, ps, rows, k) < k,
        last_above(pic, ps, rows, k) >= 0 ==> pair_score(pic, ps[last_above(pic, ps, rows, k)], rows) > pair_score(
            pic,
            ps[0],
            rows,
        ),
        forall|i: int|
            last_above(pic, ps, rows, k) < i < k ==> pair_score(pic, #[trigger] ps[i], rows) <= pair_score(
                pic,
                ps[0],
                rows,
            ),
    decreases k,
{
    if k > 0 {
        lemma_last_above(pic, ps, rows, k - 1);
    }
}

// ---------------------------------------------------------------------------
// Choosing the vertical photo that completes a vertical photo.
/// The id of a vertical photo.
pub open spec fn vertical_id(source: PicType) -> usize {
    match source {
        PicType::V(id) => id,
        _ => 0,
    }
}

/// The number of tags two pictures share, modulo 256.
pub open spec fn shared_u8(a: PicModel, b: PicModel) -> u8 {
    a.tags.intersect(b.tags).len() as u8
}

/// The index of the first vertical photo at or after `k`, or `ps.len()`.
pub open spec fn first_vertical(ps: Seq<PicModel>, k: int) -> int
    decreases ps.len() - k,
{
    if k >= ps.len() {
        ps.len() as int
    } else if ps[k].source is V {
        k
    } else {
        first_vertical(ps, k + 1)
    }
}

/// The last vertical photo below index `k` that shares fewer tags (modulo
/// 256) with `pic` than `s0`, or -1.
pub open spec fn last_below(pic: PicModel, ps: Seq<PicModel>, s0: u8, k: int) -> int
    decreases k,
{
    if k <= 0 {
        -1
    } else if ps[k - 1].source is V && shared_u8(pic, ps[k - 1]) < s0 {
        k - 1
    } else {
        last_below(pic, ps, s0, k - 1)
    }
}

/// The index of the vertical photo put beside the vertical photo `pic`: the
/// last one that shares fewer tags with it than the first vertical photo
/// does, or else the first vertical photo.
pub open spec fn incomplete_choice(pic: PicModel, ps: Seq<PicModel>) -> int {
    let f = first_vertical(ps, 0);
    let l = last_below(pic, ps, shared_u8(pic, ps[f]), ps.len() as int);
    if l >= 0 {
        l
    } else {
        f
    }
}

/// The slide that shows the vertical photos `pic` and `other` together.
pub open spec fn combined(pic: PicModel, other: PicModel, id: usize) -> PicModel {
    PicModel {
        tags: pic.tags.union(other.tags),
        id: id,
        source: PicType::VV(vertical_id(pic.source), vertical_id(other.source)),
    }
}

proof fn lemma_first_vertical(ps: Seq<PicModel>, k: int)
    requires
        0 <= k <= ps.len(),
    ensures
        k <= first_vertical(ps, k) <= ps.len(),
        first_vertical(ps, k) < ps.len() ==> ps[first_vertical(ps, k)].source is V,
        forall|i: int| k <= i < first_vertical(ps, k) ==> !(#[trigger] ps[i].source is V),
    decreases ps.len() - k,
{
    if k < ps.len() {
        lemma_first_vertical(ps, k + 1);
    }
}

proof fn lemma_last_below(pic: PicModel, ps: Seq<PicModel>, s0: u8, k: int)
    requires
        0 <= k <= ps.len(),
    ensures
        -1 <= last_below(pic, ps, s0, k) < k,
        last_below(pic, ps, s0, k) >= 0 ==> ps[last_below(pic, ps, s0, k)].source is V,
        last_below(pic, ps, s0, k) >= 0 ==> shared_u8(pic, ps[last_below(pic, ps, s0, k)]) < s0,
        forall|d: int|
            last_below(pic, ps, s0, k) < d < k && (#[trigger] ps[d]).source is V ==> shared_u8(pic, ps[d]) >= s0,
    decreases k,
{
    if k > 0 {
        lemma_last_below(pic, ps, s0, k - 1);
    }
}

/// When a vertical photo `pic` is followed by the pictures `ps`, whose first
/// vertical photo is at `f`, it is paired with a vertical photo of `ps` into a
/// slide with the tags of both. The partner shares no more tags with `pic`
/// (counted as a `u8`) than the photo at `f`; when some vertical photo of `ps`
/// shares fewer, the partner shares fewer too and is the last such photo;
/// otherwise the partner is the photo at `f`.
pub proof fn lemma_vertical_partner(pic: PicModel, ps: Seq<PicModel>, rows: Seq<Seq<u8>>, f: int)
    requires
        pic.source is V,
        0 <= f < ps.len(),
        ps[f].source is V,
        forall|i: int| 0 <= i < f ==> !(#[trigger] ps[i].source is V),
    ensures
        match next_move(pic, ps, rows) {
            Move::Join(q, c) => {
                &&& 0 <= c < ps.len()
                &&& ps[c].source is V
                &&& q.tags == pic.tags.union(ps[c].tags)
                &&& q.source == PicType::VV(vertical_id(pic.source), vertical_id(ps[c].source))
                &&& shared_u8(pic, ps[c]) <= shared_u8(pic, ps[f])
                &&& (exists|d: int|
                    0 <= d < ps.len() && (#[trigger] ps[d]).source is V && shared_u8(pic, ps[d]) < shared_u8(
                        pic,
                        ps[f],
                    )) ==> {
                    &&& shared_u8(pic, ps[c]) < shared_u8(pic, ps[f])
                    &&& forall|d: int|
                        c < d < ps.len() && (#[trigger] ps[d]).source is V ==> shared_u8(pic, ps[d]) >= shared_u8(
                            pic,
                            ps[f],
                        )
                }
                &&& (forall|d: int|
                    0 <= d < ps.len() && (#[trigger] ps[d]).source is V ==> shared_u8(pic, ps[d]) >= shared_u8(
                        pic,
                        ps[f],
                    )) ==> c == f
            },
            _ => false,
        },
{
    lemma_first_vertical(ps, 0);
    let fv = first_vertical(ps, 0);
    if fv < f {
        assert(!(ps[fv].source is V));
    }
    if fv > f {
        assert(!(ps[f].source is V));
    }
    assert(fv == f);
    let s0 = shared_u8(pic, ps[f]);
    lemma_last_below(pic, ps, s0, ps.len() as int);
    let l = last_below(pic, ps, s0, ps.len() as int);
    if exists|d: int| 0 <= d < ps.len() && (#[trigger] ps[d]).source is V && shared_u8(pic, ps[d]) < s0 {
        let d = choose|d: int| 0 <= d < ps.len() && (#[trigger] ps[d]).source is V && shared_u8(pic, ps[d]) < s0;
        assert(l >= 0) by {
            if l < 0 {
                assert(l < d);
            }
        }
    }
}

// ---------------------------------------------------------------------------
/// What happens after a slide.
pub enum Move {
    /// Continue with the picture at this index.
    Idx(int),
    /// Replace the picture at the index by the combined slide, and continue
    /// with it.
    Join(PicModel, int),
    /// There is nothing to go on with.
    Stop,
}

/// The move after the slide `pic`, with `ps` left to show.
pub open spec fn next_move(pic: PicModel, ps: Seq<PicModel>, rows: Seq<Seq<u8>>) -> Move {
    match pic.source {
        PicType::V(_) => {
            if first_vertical(ps, 0) < ps.len() {
                let c = incomplete_choice(pic, ps);
                Move::Join(combined(pic, ps[c], rows.len() as usize), c)
            } else {
                Move::Stop
            }
        },
        _ => {
            if ps.len() > 0 {
                Move::Idx(complete_choice(pic, ps, rows))
            } else {
                Move::Stop
            }
        },
    }
}

/// The outcome of looking for the next slide.
pub enum NextOption {
    Idx(usize),
    Pic { pic: Pic, other_idx: usize },
    NoSlide,
}

impl NextOption {
    pub open spec fn model(&self) -> Move {
        match self {
            NextOption::Idx(i) => Move::Idx(*i as int),
            NextOption::Pic { pic, other_idx } => Move::Join(pic@, *other_idx as int),
            NextOption::NoSlide => Move::Stop,
        }
    }
}

/// A contender for the next slide.
struct Best {
    idx: usize,
    pic: Pic,
    score: u8,
    score_sum: u32,
}

impl Best {
    fn duplicate(&self) -> (r: Best)
        ensures
            r.idx == self.idx,
            r.pic@ == self.pic@,
            r.score == self.score,
            r.score_sum == self.score_sum,
    {
        Best { idx: self.idx, pic: self.pic.clone(), score: self.score, score_sum: self.score_sum }
    }
}

/// The score sums of the contenders.
spec fn contender_sums(cs: Seq<Best>, axis_len: int, rows: Seq<Seq<u8>>, ps: Seq<PicModel>) -> Seq<nat> {
    Seq::new(cs.len(), |k: int| score_sum_at(cs[k].pic@, axis_len, rows, ps))
}

/// The position and value of the least of the first `k` sums, scanning from
/// `seed` and moving only on a strictly smaller sum.
spec fn running_best(sums: Seq<nat>, seed: nat, k: int) -> (int, nat)
    decreases k,
{
    if k <= 0 {
        (0, seed)
    } else {
        let prev = running_best(sums, seed, k - 1);
        if sums[k - 1] < prev.1 {
            (k - 1, sums[k - 1])
        } else {
            prev
        }
    }
}

proof fn lemma_running_best_first_min(sums: Seq<nat>, k: int)
    requires
        1 <= k <= sums.len(),
    ensures
        0 <= running_best(sums, sums[0], k).0 < k,
        running_best(sums, sums[0], k).1 == sums[running_best(sums, sums[0], k).0],
        forall|q: int| 0 <= q < k ==> #[trigger] sums[q] >= running_best(sums, sums[0], k).1,
        forall|q: int| 0 <= q < running_best(sums, sums[0], k).0 ==> #[trigger] sums[q] > running_best(sums, sums[0], k).1,
    decreases k,
{
    if k > 1 {
        lemma_running_best_first_min(sums, k - 1);
    } else {
        assert(running_best(sums, sums[0], 0) == (0int, sums[0]));
    }
}

proof fn lemma_running_best_zero(sums: Seq<nat>, k: int)
    requires
        0 <= k <= sums.len(),
    ensures
        running_best(sums, 0, k) == (0int, 0nat),
    decreases k,
{
    if k > 0 {
        lemma_running_best_zero(sums, k - 1);
    }
}

impl Pic {
    /// The sum of the interests of all transitions from `self`.
    fn score_sum(&self, axis_len: usize, scores_matrix: &ScoresMatrix, pics: &Pics) -> (r: u32)
        requires
            axis_len <= scores_matrix@.len(),
            search_bounds(models(pics@), scores_matrix@),
        ensures
            r == score_sum_at(self@, axis_len as int, scores_matrix@, models(pics@)),
    {
        let ghost ps = models(pics@);
        let ghost rows = scores_matrix@;
        let scores = if self.id < axis_len {
            scores_matrix.row_to_vec(self.id)
        } else {
            self.all_scores(pics).to_vec()
        };
        proof {
            if self.id >= axis_len {
                assert(scores@ =~= Seq::new(ps.len(), |k: int| transition_score(self@.tags, ps[k].tags)));
            }
        }
        let n = scores.len();
        let mut score_sum: u32 = 0;
        let mut i: usize = 0;
        while i < n
            invariant
                n == scores@.len(),
                n <= SUM_LIMIT,
                i <= n,
                score_sum == bytes_sum(scores@.take(i as int)),
                score_sum <= 255 * i,
            decreases n - i,
        {
            assert(scores@.take(i + 1).drop_last() =~= scores@.take(i as int));
            score_sum = score_sum + scores[i] as u32;
            i = i + 1;
        }
        assert(scores@.take(n as int) =~= scores@);
        score_sum
    }
}

/// The interest of the transition from `a` to `b`, from the table where it
/// can.
fn score_pair(a: &Pic, b: &Pic, axis_len: usize, scores_matrix: &ScoresMatrix) -> (r: u8)
    requires
        axis_len <= scores_matrix@.len(),
        is_square(scores_matrix@, scores_matrix@.len()),
    ensures
        r == pair_score_at(a@, b@, axis_len as int, scores_matrix@),
{
    if a.id < axis_len && b.id < axis_len {
        scores_matrix.at(a.id, b.id)
    } else {
        a.score_with(b)
    }
}

/// The contender with the least score sum, starting from the first one with
/// its recorded sum and moving only on a strictly smaller sum.
fn best_contender(contenders: Vec<Best>, axis_len: usize, scores_matrix: &ScoresMatrix, pics: &Pics) -> (r: Best)
    requires
        contenders@.len() > 0,
        axis_len <= scores_matrix@.len(),
        search_bounds(models(pics@), scores_matrix@),
    ensures
        ({
            let p = running_best(
                contender_sums(contenders@, axis_len as int, scores_matrix@, models(pics@)),
                contenders@[0].score_sum as nat,
                contenders@.len() as int,
            ).0;
            &&& r.idx == contenders@[p].idx
            &&& r.pic@ == contenders@[p].pic@
            &&& r.score == contenders@[p].score
        }),
{
    let ghost sums = contender_sums(contenders@, axis_len as int, scores_matrix@, models(pics@));
    let ghost seed = contenders@[0].score_sum as nat;
    let mut best = contenders[0].duplicate();
    let n = contenders.len();
    let mut i: usize = 0;
    while i < n
        invariant
            n == contenders@.len(),
            n > 0,
            i <= n,
            axis_len <= scores_matrix@.len(),
            search_bounds(models(pics@), scores_matrix@),
            sums == contender_sums(contenders@, axis_len as int, scores_matrix@, models(pics@)),
            seed == contenders@[0].score_sum as nat,
            ({
                let rb = running_best(sums, seed, i as int);
                &&& 0 <= rb.0 < n
                &&& best.idx == contenders@[rb.0].idx
                &&& best.pic@ == contenders@[rb.0].pic@
                &&& best.score == contenders@[rb.0].score
                &&& best.score_sum as nat == rb.1
            }),
        decreases n - i,
    {
        let contender_score_sum = contenders[i].pic.score_sum(axis_len, scores_matrix, pics);
        if contender_score_sum < best.score_sum {
            best = contenders[i].duplicate();
            best.score_sum = contender_score_sum;
        }
        i = i + 1;
    }
    best
}

/// The indices of a list of contenders.
spec fn idx_list(cs: Seq<Best>) -> Seq<int> {
    cs.map_values(|b: Best| b.idx as int)
}

/// The slide that follows the complete slide `pic`, among `pics`.
fn complete_slide(pic: &Pic, pics: &Pics, scores_matrix: &ScoresMatrix) -> (r: NextOption)
    requires
        search_bounds(models(pics@), scores_matrix@),
    ensures
        pics@.len() == 0 ==> r is NoSlide,
        pics@.len() > 0 ==> (r matches NextOption::Idx(c) && is_complete_choice(
            pic@,
            models(pics@),
            scores_matrix@,
            c as int,
        )),
{
    let ghost ps = models(pics@);
    let ghost rows = scores_matrix@;
    let axis_len = scores_matrix.nrows();
    if pics.len() == 0 {
        return NextOption::NoSlide;
    }
    let best = Best {
        idx: 0,
        pic: pics[0].clone(),
        score: score_pair(pic, &pics[0], axis_len, scores_matrix),
        score_sum: pics[0].score_sum(axis_len, scores_matrix, pics),
    };
    let mut contenders: Vec<Best> = Vec::new();
    contenders.push(best.duplicate());
    let n = pics.len();
    let mut idx: usize = 0;
    assert(idx_list(contenders@) =~= seq![0int] + ties(pic@, ps, rows, last_above(pic@, ps, rows, 0) + 1, 0));
    while idx < n
        invariant
            ps == models(pics@),
            rows == scores_matrix@,
            axis_len == rows.len(),
            search_bounds(ps, rows),
            n == ps.len(),
            n > 0,
            idx <= n,
            best.idx == 0,
            best.pic@ == ps[0],
            best.score == pair_score(pic@, ps[0], rows),
            best.score_sum == score_sum_of(ps[0], rows, ps),
            contenders@.len() >= 1,
            contenders@[0].pic@ == ps[0],
            contenders@[0].score_sum == best.score_sum,
            idx_list(contenders@) == seq![0int] + ties(
                pic@,
                ps,
                rows,
                last_above(pic@, ps, rows, idx as int) + 1,
                idx as int,
            ),
            forall|j: int| 0 <= j < contenders@.len() ==> #[trigger] contenders@[j].idx < n,
            forall|j: int|
                0 <= j < contenders@.len() ==> #[trigger] contenders@[j].pic@ == ps[contenders@[j].idx as int],
        decreases n - idx,
    {
        proof {
            lemma_last_above(pic@, ps, rows, idx as int);
        }
        let ghost g = last_above(pic@, ps, rows, idx as int);
        let ghost before = contenders@;
        let contender_score = score_pair(pic, &pics[idx], axis_len, scores_matrix);
        let contender = Best { pic: pics[idx].clone(), idx, score: contender_score, score_sum: 0 };
        assert(contender.pic@ == ps[idx as int]);
        if contender_score > best.score {
            contenders.clear();
            contenders.push(best.duplicate());
            proof {
                assert(last_above(pic@, ps, rows, idx + 1) == idx);
                assert(idx_list(contenders@) =~= seq![0int] + ties(pic@, ps, rows, idx + 1, idx + 1));
                assert(contenders@.len() == 1);
                assert(contenders@[0].idx == 0);
                assert(contenders@[0].pic@ == ps[0]);
                assert forall|j: int|
                    0 <= j < contenders@.len() implies contenders@[j].idx < n && #[trigger] contenders@[j].pic@
                        == ps[contenders@[j].idx as int] by {
                    assert(j == 0);
                }
            }
        } else if contender_score == best.score {
            contenders.push(contender.duplicate());
            proof {
                assert(last_above(pic@, ps, rows, idx + 1) == g);
                assert(ties(pic@, ps, rows, g + 1, idx + 1) == ties(pic@, ps, rows, g + 1, idx as int).push(idx as int));
                assert(idx_list(contenders@) =~= idx_list(before).push(idx as int));
                assert(idx_list(contenders@) =~= seq![0int] + ties(pic@, ps, rows, g + 1, idx + 1));
                assert(contenders@[0] == before[0]);
                assert forall|j: int|
                    0 <= j < contenders@.len() implies contenders@[j].idx < n && #[trigger] contenders@[j].pic@
                        == ps[contenders@[j].idx as int] by {
                    if j < before.len() {
                        assert(contenders@[j] == before[j]);
                        assert(before[j].pic@ == ps[before[j].idx as int]);
                    } else {
                        assert(j == before.len());
                        assert(contenders@[j].idx == idx);
                        assert(contenders@[j].pic@ == ps[idx as int]);
                    }
                }
            }
        } else {
            proof {
                assert(last_above(pic@, ps, rows, idx + 1) == g);
                assert(ties(pic@, ps, rows, g + 1, idx + 1) == ties(pic@, ps, rows, g + 1, idx as int));
                assert(contenders@ == before);
                assert forall|j: int|
                    0 <= j < contenders@.len() implies contenders@[j].idx < n && #[trigger] contenders@[j].pic@
                        == ps[contenders@[j].idx as int] by {
                    assert(before[j].pic@ == ps[before[j].idx as int]);
                }
            }
        }
        idx = idx + 1;
    }
    let ghost cs = contenders@;
    let ghost sums = contender_sums(cs, rows.len() as int, rows, ps);
    let chosen = best_contender(contenders, axis_len, scores_matrix, pics);
    proof {
        let g = last_above(pic@, ps, rows, n as int);
        let t = ties(pic@, ps, rows, g + 1, n as int);
        let l = idx_list(cs);
        lemma_last_above(pic@, ps, rows, n as int);
        lemma_ties(pic@, ps, rows, g + 1, n as int);
        lemma_running_best_first_min(sums, cs.len() as int);
        let p = running_best(sums, cs[0].score_sum as nat, cs.len() as int).0;
        let v = running_best(sums, cs[0].score_sum as nat, cs.len() as int).1;
        assert(sums[0] == score_sum_of(ps[0], rows, ps));
        let c = chosen.idx as int;
        assert(c == l[p]);
        assert(forall|k: int| 0 <= k < cs.len() ==> #[trigger] sums[k] == score_sum_of(ps[l[k]], rows, ps));
        assert(forall|k: int| 1 <= k < cs.len() ==> #[trigger] l[k] == t[k - 1]);
        assert(is_candidate(pic@, ps, rows, c)) by {
            if p > 0 {
                assert(l[p] == t[p - 1]);
            }
        }
        assert forall|d: int|
            0 <= d < ps.len() && is_candidate(pic@, ps, rows, d) implies score_sum_of(ps[d], rows, ps)
            >= score_sum_of(ps[c], rows, ps) by {
            if d != 0 {
                assert(t.contains(d));
                let q = choose|q: int| 0 <= q < t.len() && t[q] == d;
                assert(l[q + 1] == d);
                assert(sums[q + 1] >= v);
            } else {
                assert(sums[0] >= v);
            }
        }
        if c != 0 {
            assert(p != 0);
            assert forall|d: int|
                0 < d < c && is_candidate(pic@, ps, rows, d) implies score_sum_of(ps[d], rows, ps)
                > score_sum_of(ps[c], rows, ps) by {
                assert(t.contains(d));
                let q = choose|q: int| 0 <= q < t.len() && t[q] == d;
                assert(l[q + 1] == d);
                assert(t[p - 1] == c);
                if q >= p - 1 {
                    if q > p - 1 {
                        assert(t[p - 1] < t[q]);
                    }
                }
                assert(q + 1 < p);
                assert(sums[q + 1] > v);
            }
        }
    }
    NextOption::Idx(chosen.idx)
}

/// The contender that puts the vertical photo `contender` (at `idx`) beside the
/// vertical photo `pic`.
fn gen_contender(idx: usize, pic: &Pic, contender: &Pic, axis_len: usize) -> (r: Best)
    requires
        pic.source is V,
        contender.source is V,
    ensures
        r.idx == idx,
        r.pic@ == combined(pic@, contender@, axis_len),
        r.score == shared_u8(pic@, contender@),
        r.score_sum == 0,
{
    let tags = pic.intersect_with(contender);
    Best {
        idx: idx,
        pic: Pic {
            tags: pic.union_with(contender),
            id: axis_len,
            source: PicType::VV(pic.source(), contender.source()),
        },
        score: tags.len() as u8,
        score_sum: 0,
    }
}

/// Whether `p` is a vertical photo.
fn is_vertical(p: &Pic) -> (r: bool)
    ensures
        r == p.source is V,
{
    match p.source {
        PicType::V(_) => true,
        _ => false,
    }
}

/// The vertical photo to put beside the vertical photo `pic`, among `pics`.
fn incomplete_slide(pic: &Pic, pics: &Pics, scores_matrix: &ScoresMatrix) -> (r: NextOption)
    requires
        pic.source is V,
        search_bounds(models(pics@), scores_matrix@),
    ensures
        first_vertical(models(pics@), 0) >= pics@.len() ==> r is NoSlide,
        first_vertical(models(pics@), 0) < pics@.len() ==> r.model() == Move::Join(
            combined(
                pic@,
                models(pics@)[incomplete_choice(pic@, models(pics@))],
                scores_matrix@.len() as usize,
            ),
            incomplete_choice(pic@, models(pics@)),
        ),
{
    let ghost ps = models(pics@);
    let ghost rows = scores_matrix@;
    let axis_len = scores_matrix.nrows();
    let n = pics.len();
    proof {
        lemma_first_vertical(ps, 0);
    }
    let mut first: usize = 0;
    let mut found = false;
    while !found && first < n
        invariant
            ps == models(pics@),
            n == ps.len(),
            first <= n,
            found ==> first < n && ps[first as int].source is V,
            forall|i: int| 0 <= i < first ==> !(#[trigger] ps[i].source is V),
        decreases n - first + (if found { 0int } else { 1int }),
    {
        if is_vertical(&pics[first]) {
            found = true;
        } else {
            first = first + 1;
        }
    }
    proof {
        lemma_first_vertical(ps, 0);
        let f = first_vertical(ps, 0);
        if found {
            if f < first {
                assert(!(ps[f].source is V));
            }
            if f > first {
                assert(!(ps[first as int].source is V));
            }
        } else {
            if f < n {
                assert(!(ps[f].source is V));
            }
        }
    }
    if !found {
        return NextOption::NoSlide;
    }
    let best = gen_contender(first, pic, &pics[first], axis_len);
    let ghost s0 = best.score;
    let mut contenders: Vec<Best> = Vec::new();
    contenders.push(best.duplicate());
    let mut idx: usize = 0;
    while idx < n
        invariant
            ps == models(pics@),
            rows == scores_matrix@,
            axis_len == rows.len(),
            search_bounds(ps, rows),
            pic.source is V,
            n == ps.len(),
            first < n,
            first == first_vertical(ps, 0),
            ps[first as int].source is V,
            idx <= n,
            s0 == best.score,
            s0 == shared_u8(pic@, ps[first as int]),
            contenders@.len() >= 1,
            contenders@[0].score_sum == 0,
            ({
                let l = last_below(pic@, ps, s0, idx as int);
                let c = if l >= 0 {
                    l
                } else {
                    first as int
                };
                &&& contenders@[0].idx == c
                &&& contenders@[0].pic@ == combined(pic@, ps[c], axis_len)
            }),
        decreases n - idx,
    {
        if is_vertical(&pics[idx]) {
            let contender = gen_contender(idx, pic, &pics[idx], axis_len);
            if contender.score < best.score {
                contenders.clear();
                contenders.push(contender.duplicate());
            } else if contender.score == best.score {
                let ghost before = contenders@;
                contenders.push(contender.duplicate());
                assert(contenders@[0] == before[0]);
            }
        }
        idx = idx + 1;
    }
    let ghost cs = contenders@;
    let best = best_contender(contenders, axis_len, scores_matrix, pics);
    proof {
        lemma_running_best_zero(contender_sums(cs, rows.len() as int, rows, ps), cs.len() as int);
        lemma_last_below(pic@, ps, s0, n as int);
    }
    NextOption::Pic { pic: best.pic, other_idx: best.idx }
}

impl Pic {
    /// What to show after `self`, with `pics` left.
    fn next(&self, pics: &Pics, scores_matrix: &ScoresMatrix) -> (r: NextOption)
        requires
            search_bounds(models(pics@), scores_matrix@),
        ensures
            r.model() == next_move(self@, models(pics@), scores_matrix@),
            r matches NextOption::Idx(i) ==> i < pics@.len(),
            r matches NextOption::Pic { other_idx, .. } ==> other_idx < pics@.len(),
    {
        let ghost ps = models(pics@);
        let ghost rows = scores_matrix@;
        match self.source {
            PicType::V(_) => {
                let r = incomplete_slide(self, pics, scores_matrix);
                proof {
                    if first_vertical(ps, 0) < ps.len() {
                        lemma_first_vertical(ps, 0);
                        lemma_last_below(self@, ps, shared_u8(self@, ps[first_vertical(ps, 0)]), ps.len() as int);
                    }
                }
                r
            },
            _ => {
                let r = complete_slide(self, pics, scores_matrix);
                proof {
                    if ps.len() > 0 {
                        let c = choose|c: int| is_complete_choice(self@, ps, rows, c);
                        if let NextOption::Idx(i) = r {
                            lemma_complete_choice_unique(self@, ps, rows, c, i as int);
                        }
                    }
                }
                r
            },
        }
    }
}

// ---------------------------------------------------------------------------
// Ordering the pictures before the search.
/// The score sum of each picture, backed by an `ndarray::Array1<u32>`.
#[verifier::external_body]
pub struct ScoreSum {
    cells: Array1<u32>,
}

/// The cells of a `ScoreSum`, in order.
pub uninterp spec fn score_sum_cells(a: ScoreSum) -> Seq<u32>;

impl View for ScoreSum {
    type V = Seq<u32>;

    open spec fn view(&self) -> Seq<u32> {
        score_sum_cells(*self)
    }
}

impl ScoreSum {
    /// `Array1::zeros(n)`: `n` zeros (it panics when `4 * n` exceeds
    /// `isize::MAX`).
    #[verifier::external_body]
    fn zeros(n: usize) -> (r: ScoreSum)
        requires
            4 * n <= isize::MAX,
        ensures
            score_sum_cells(r) == Seq::new(n as nat, |i: int| 0u32),
    {
        ScoreSum { cells: Array1::zeros(n) }
    }

    /// `IndexMut` of `Array1`: writes cell `i` (it panics out of bounds).
    #[verifier::external_body]
    fn set(&mut self, i: usize, v: u32)
        requires
            i < score_sum_cells(*old(self)).len(),
        ensures
            score_sum_cells(*final(self)) == score_sum_cells(*old(self)).update(i as int, v),
    {
        self.cells[i] = v;
    }

    /// `Index` of `Array1`: reads cell `i` (it panics out of bounds).
    #[verifier::external_body]
    fn at(&self, i: usize) -> (r: u32)
        requires
            i < score_sum_cells(*self).len(),
        ensures
            r == score_sum_cells(*self)[i as int],
    {
        self.cells[i]
    }
}

/// The score sum of each picture of `pics`, in an array of `axis_len` cells;
/// the cells past the pictures stay zero.
fn gen_score_sums(axis_len: usize, scores_matrix: &ScoresMatrix, pics: &Pics) -> (r: ScoreSum)
    requires
        axis_len <= scores_matrix@.len(),
        search_bounds(models(pics@), scores_matrix@),
        pics@.len() <= axis_len,
    ensures
        r@.len() == axis_len,
        forall|i: int| 0 <= i < pics@.len() ==> #[trigger] r@[i] as nat == score_sum_at(
            models(pics@)[i],
            axis_len as int,
            scores_matrix@,
            models(pics@),
        ),
        forall|i: int| pics@.len() <= i < axis_len ==> #[trigger] r@[i] == 0,
{
    let mut score_sums_array = ScoreSum::zeros(axis_len);
    let n = pics.len();
    let mut ix: usize = 0;
    while ix < n
        invariant
            n == pics@.len(),
            n <= axis_len,
            ix <= n,
            axis_len <= scores_matrix@.len(),
            search_bounds(models(pics@), scores_matrix@),
            score_sums_array@.len() == axis_len,
            forall|i: int| 0 <= i < ix ==> #[trigger] score_sums_array@[i] as nat == score_sum_at(
                models(pics@)[i],
                axis_len as int,
                scores_matrix@,
                models(pics@),
            ),
            forall|i: int| ix <= i < axis_len ==> #[trigger] score_sums_array@[i] == 0,
        decreases n - ix,
    {
        let sum = pics[ix].score_sum(axis_len, scores_matrix, pics);
        score_sums_array.set(ix, sum);
        ix = ix + 1;
    }
    score_sums_array
}

/// Lexicographic order on pairs.
pub open spec fn pair_le(a: (u32, usize), b: (u32, usize)) -> bool {
    a.0 < b.0 || (a.0 == b.0 && a.1 <= b.1)
}

/// `slice::sort` on pairs: the same pairs, in lexicographic order.
#[verifier::external_body]
fn sort_pairs(v: &mut Vec<(u32, usize)>)
    ensures
        final(v)@.len() == old(v)@.len(),
        final(v)@.to_multiset() == old(v)@.to_multiset(),
        forall|i: int, j: int| 0 <= i < j < final(v)@.len() ==> pair_le(final(v)@[i], final(v)@[j]),
{
    v.sort();
}

/// The key by which picture `i` is ordered: the score sum recorded for its id.
pub open spec fn sort_key(ps: Seq<PicModel>, sums: Seq<u32>, i: int) -> u32 {
    sums[ps[i].id as int]
}

/// Picture `i` goes before picture `j`: a greater key, or the same key and an
/// earlier position.
pub open spec fn goes_before(ps: Seq<PicModel>, sums: Seq<u32>, i: int, j: int) -> bool {
    ||| sort_key(ps, sums, i) > sort_key(ps, sums, j)
    ||| sort_key(ps, sums, i) == sort_key(ps, sums, j) && i < j
}

/// `order` lists every position of `ps` once, each before the ones it goes
/// before.
pub open spec fn is_sorted_order(order: Seq<int>, ps: Seq<PicModel>, sums: Seq<u32>) -> bool {
    &&& order.len() == ps.len()
    &&& forall|k: int| 0 <= k < order.len() ==> 0 <= #[trigger] order[k] < ps.len()
    &&& forall|i: int| 0 <= i < ps.len() ==> #[trigger] order.contains(i)
    &&& forall|k: int, l: int|
        0 <= k < l < order.len() ==> goes_before(ps, sums, #[trigger] order[k], #[trigger] order[l])
}

/// The positions of a sorted order are distinct.
proof fn lemma_sorted_order_distinct(o: Seq<int>, ps: Seq<PicModel>, sums: Seq<u32>, k: int, l: int)
    requires
        is_sorted_order(o, ps, sums),
        0 <= k < o.len(),
        0 <= l < o.len(),
        k != l,
    ensures
        o[k] != o[l],
{
    if k < l {
        assert(goes_before(ps, sums, o[k], o[l]));
    } else {
        assert(goes_before(ps, sums, o[l], o[k]));
    }
}

/// Two sorted orders agree on their first `k` positions.
proof fn lemma_sorted_order_prefix(o1: Seq<int>, o2: Seq<int>, ps: Seq<PicModel>, sums: Seq<u32>, k: int)
    requires
        is_sorted_order(o1, ps, sums),
        is_sorted_order(o2, ps, sums),
        0 <= k <= o1.len(),
    ensures
        forall|j: int| 0 <= j < k ==> o1[j] == o2[j],
    decreases k,
{
    if k > 0 {
        lemma_sorted_order_prefix(o1, o2, ps, sums, k - 1);
        let j = k - 1;
        let a = o1[j];
        let b = o2[j];
        if a != b {
            assert(o2.contains(a));
            let m = choose|m: int| 0 <= m < o2.len() && o2[m] == a;
            assert(o1.contains(b));
            let q = choose|q: int| 0 <= q < o1.len() && o1[q] == b;
            if m < j {
                assert(o1[m] == a);
                lemma_sorted_order_distinct(o1, ps, sums, m, j);
            }
            if q < j {
                assert(o2[q] == b);
                lemma_sorted_order_distinct(o2, ps, sums, q, j);
            }
            assert(goes_before(ps, sums, o2[j], o2[m]));
            assert(goes_before(ps, sums, o1[j], o1[q]));
        }
    }
}

/// There is only one sorted order.
pub proof fn lemma_sorted_order_unique(o1: Seq<int>, o2: Seq<int>, ps: Seq<PicModel>, sums: Seq<u32>)
    requires
        is_sorted_order(o1, ps, sums),
        is_sorted_order(o2, ps, sums),
    ensures
        o1 == o2,
{
    lemma_sorted_order_prefix(o1, o2, ps, sums, o1.len() as int);
    assert(o1 =~= o2);
}

/// The pictures of `ps` in `order`.
pub open spec fn permuted(ps: Seq<PicModel>, order: Seq<int>) -> Seq<PicModel> {
    Seq::new(order.len(), |k: int| ps[order[k]])
}

/// The pictures with their positions as ids.
pub open spec fn renumbered(ps: Seq<PicModel>) -> Seq<PicModel> {
    Seq::new(
        ps.len(),
        |k: int| PicModel { tags: ps[k].tags, id: k as usize, source: ps[k].source },
    )
}

/// The pictures in decreasing order of the score sum of their ids, ties kept
/// in their order, renumbered.
fn sort_pics(pics: &Pics, score_sums_array: &ScoreSum) -> (r: Pics)
    requires
        pics@.len() >= 2 ==> forall|i: int|
            0 <= i < pics@.len() ==> #[trigger] pics@[i].id < score_sums_array@.len(),
    ensures
        exists|order: Seq<int>|
            is_sorted_order(order, models(pics@), score_sums_array@) && models(r@) == renumbered(
                permuted(models(pics@), order),
            ),
{
    let ghost ps = models(pics@);
    let ghost sums = score_sums_array@;
    let n = pics.len();
    if n < 2 {
        let mut out: Pics = Vec::new();
        if n == 1 {
            out.push(pics[0].clone());
        }
        let ghost order = Seq::new(n as nat, |k: int| k);
        assert(models(out@) =~= permuted(ps, order));
        assert(is_sorted_order(order, ps, sums)) by {
            assert forall|i: int| 0 <= i < ps.len() implies #[trigger] order.contains(i) by {
                assert(order[i] == i);
            }
        }
        out.reindex();
        assert(models(out@) =~= renumbered(permuted(ps, order)));
        return out;
    }
    let mut keyed: Vec<(u32, usize)> = Vec::new();
    let mut i: usize = 0;
    while i < n
        invariant
            n == pics@.len(),
            ps == models(pics@),
            sums == score_sums_array@,
            forall|i: int| 0 <= i < pics@.len() ==> #[trigger] pics@[i].id < sums.len(),
            i <= n,
            keyed@ == Seq::new(i as nat, |k: int| ((u32::MAX - sort_key(ps, sums, k)) as u32, k as usize)),
        decreases n - i,
    {
        let key = u32::MAX - score_sums_array.at(pics[i].id);
        keyed.push((key, i));
        assert(keyed@ =~= Seq::new((i + 1) as nat, |k: int| ((u32::MAX - sort_key(ps, sums, k)) as u32, k as usize)));
        i = i + 1;
    }
    let ghost input = keyed@;
    sort_pairs(&mut keyed);
    let ghost order = Seq::new(n as nat, |k: int| keyed@[k].1 as int);
    proof {
        lemma_sorted_pairs(input, keyed@, ps, sums);
    }
    let mut out: Pics = Vec::new();
    let mut k: usize = 0;
    while k < n
        invariant
            n == pics@.len(),
            n == keyed@.len(),
            ps == models(pics@),
            order == Seq::new(n as nat, |k: int| keyed@[k].1 as int),
            forall|j: int| 0 <= j < n ==> 0 <= #[trigger] order[j] < n,
            k <= n,
            models(out@) == permuted(ps, order).take(k as int),
        decreases n - k,
    {
        assert(order[k as int] == keyed@[k as int].1 as int);
        assert(0 <= order[k as int] < n);
        let ghost before = models(out@);
        out.push(pics[keyed[k].1].clone());
        assert(models(out@) =~= before.push(ps[order[k as int]]));
        assert(permuted(ps, order).take(k + 1) =~= permuted(ps, order).take(k as int).push(ps[order[k as int]]));
        k = k + 1;
    }
    assert(permuted(ps, order).take(n as int) =~= permuted(ps, order));
    let ghost unsorted = models(out@);
    out.reindex();
    assert(models(out@) =~= renumbered(permuted(ps, order)));
    out
}

/// Sorting the keyed positions gives a sorted order.
proof fn lemma_sorted_pairs(input: Seq<(u32, usize)>, output: Seq<(u32, usize)>, ps: Seq<PicModel>, sums: Seq<u32>)
    requires
        ps.len() <= usize::MAX,
        input == Seq::new(ps.len(), |k: int| ((u32::MAX - sort_key(ps, sums, k)) as u32, k as usize)),
        forall|i: int| 0 <= i < ps.len() ==> #[trigger] ps[i].id < sums.len(),
        output.len() == input.len(),
        output.to_multiset() == input.to_multiset(),
        forall|i: int, j: int| 0 <= i < j < output.len() ==> pair_le(output[i], output[j]),
    ensures
        is_sorted_order(Seq::new(output.len(), |k: int| output[k].1 as int), ps, sums),
{
    broadcast use vstd::seq_lib::group_to_multiset_ensures;
    let n = ps.len();
    let order = Seq::new(output.len(), |k: int| output[k].1 as int);
    assert forall|j: int| 0 <= j < n implies #[trigger] output[j].1 < n && output[j].0 == (u32::MAX
        - sort_key(ps, sums, output[j].1 as int)) as u32 by {
        assert(output.contains(output[j]));
        assert(output.to_multiset().count(output[j]) > 0);
        assert(input.contains(output[j]));
        let i = choose|i: int| 0 <= i < input.len() && input[i] == output[j];
        assert(input[i] == output[j]);
        assert(input[i].1 == i);
        assert(output[j].1 == i);
    }
    assert(input.no_duplicates()) by {
        assert forall|a: int, b: int| 0 <= a < input.len() && 0 <= b < input.len() && a != b implies input[a]
            != input[b] by {
            assert(input[a].1 == a);
            assert(input[b].1 == b);
        }
    }
    input.lemma_multiset_has_no_duplicates();
    output.lemma_multiset_has_no_duplicates_conv();
    assert forall|i: int| 0 <= i < n implies #[trigger] order.contains(i) by {
        assert(input.contains(input[i]));
        assert(input.to_multiset().count(input[i]) > 0);
        assert(output.contains(input[i]));
        let j = choose|j: int| 0 <= j < output.len() && output[j] == input[i];
        assert(order[j] == i);
    }
    assert forall|k: int, l: int| 0 <= k < l < order.len() implies goes_before(ps, sums, #[trigger] order[k], #[trigger] order[l]) by {
        assert(pair_le(output[k], output[l]));
        assert(output[k] != output[l]);
        assert(output[k].1 < n);
        assert(output[l].1 < n);
    }
}

// ---------------------------------------------------------------------------
// The search.
/// A state of the search: the pictures left, the slides so far, and the
/// position of the next picture.
pub struct Walk {
    pub pics: Seq<PicModel>,
    pub slides: Seq<PicModel>,
    pub current: int,
}

/// One step of the search: show the current picture, then choose what comes
/// next. A vertical photo with no partner left is dropped, and the slide
/// before it goes back to the pictures left.
pub open spec fn walk_step(w: Walk, rows: Seq<Seq<u8>>) -> Walk {
    let cur = w.pics[w.current];
    let slides = w.slides.push(cur);
    let pics = w.pics.remove(w.current);
    if pics.len() == 0 {
        Walk { pics, slides, current: 0 }
    } else {
        match next_move(cur, pics, rows) {
            Move::Idx(i) => Walk { pics, slides, current: i },
            Move::Join(p, o) => Walk {
                pics: pics.remove(o).push(p),
                slides: slides.drop_last(),
                current: pics.len() - 1,
            },
            Move::Stop => {
                let s = slides.drop_last();
                if s.len() > 0 {
                    Walk { pics: pics.push(s.last()), slides: s.drop_last(), current: pics.len() as int }
                } else {
                    Walk { pics, slides: s, current: 0 }
                }
            },
        }
    }
}

/// The slides that the search shows from `w`, taking at most `fuel` steps.
pub open spec fn walk(w: Walk, rows: Seq<Seq<u8>>, fuel: nat) -> Seq<PicModel>
    decreases fuel,
{
    if fuel == 0 || w.pics.len() == 0 {
        w.slides
    } else {
        walk(walk_step(w, rows), rows, (fuel - 1) as nat)
    }
}

/// The score sum of each picture of `ps`, against the table of all pairs.
pub open spec fn initial_sums(ps: Seq<PicModel>) -> Seq<u32> {
    Seq::new(ps.len(), |i: int| score_sum_of(ps[i], pair_scores(ps), ps) as u32)
}

/// The search from the pictures taken in `order`.
pub open spec fn greedy_show(ps: Seq<PicModel>, order: Seq<int>) -> Seq<PicModel> {
    walk(
        Walk { pics: renumbered(permuted(ps, order)), slides: Seq::empty(), current: 0 },
        pair_scores(ps),
        (2 * ps.len() + 1) as nat,
    )
}

/// A slideshow built greedily: the pictures are taken in decreasing order of
/// the sum of their scores against all others, then each slide is followed by
/// the best remaining one, and vertical photos are paired.
pub fn iterative_greedy(pics: &Pics) -> (r: Pics)
    requires
        pics@.len() <= SUM_LIMIT,
        pics@.len() * pics@.len() <= isize::MAX,
        bands_fit(pics@.len() as int),
        pics@.len() >= 2 ==> forall|i: int| 0 <= i < pics@.len() ==> #[trigger] pics@[i].id < pics@.len(),
    ensures
        exists|order: Seq<int>|
            is_sorted_order(order, models(pics@), initial_sums(models(pics@))) && models(r@)
                == renumbered(greedy_show(models(pics@), order)),
        forall|k: int| 0 <= k < r@.len() - 1 ==> !(#[trigger] r@[k].source is V),
{
    let ghost ps0 = models(pics@);
    let ghost n = ps0.len();
    let scores_matrix = pics.scores_matrix();
    let ghost rows = scores_matrix@;
    let axis_len = scores_matrix.nrows();
    proof {
        assert forall|i: int| 0 <= i < rows.len() implies #[trigger] rows[i].len() == rows.len() by {}
    }
    let score_sums_array = gen_score_sums(axis_len, &scores_matrix, pics);
    proof {
        assert forall|i: int| 0 <= i < n implies score_sums_array@[i] == initial_sums(ps0)[i] by {
            assert(score_sums_array@[i] as nat == score_sum_of(ps0[i], rows, ps0));
        }
        assert(score_sums_array@ =~= initial_sums(ps0));
    }
    let mut pics = sort_pics(pics, &score_sums_array);
    let ghost order = choose|order: Seq<int>|
        is_sorted_order(order, ps0, score_sums_array@) && models(pics@) == renumbered(permuted(ps0, order));
    let ghost w0 = Walk { pics: models(pics@), slides: Seq::empty(), current: 0 };
    let ghost target = walk(w0, rows, (2 * n + 1) as nat);
    let ghost mut fuel: nat = (2 * n + 1) as nat;
    let mut slides: Pics = Vec::new();
    let mut current_idx: usize = 0;
    assert(models(slides@) =~= Seq::<PicModel>::empty());
    loop
        invariant_except_break
            forall|k: int| 0 <= k < slides@.len() ==> !(#[trigger] slides@[k].source is V),
        invariant
            rows == scores_matrix@,
            search_bounds(ps0, rows),
            rows.len() == n,
            pics@.len() + slides@.len() <= n,
            pics@.len() > 0 ==> current_idx < pics@.len(),
            fuel >= 2 * pics@.len() + slides@.len() + 1,
            walk(Walk { pics: models(pics@), slides: models(slides@), current: current_idx as int }, rows, fuel)
                == target,
        ensures
            models(slides@) == target,
            forall|k: int| 0 <= k < slides@.len() - 1 ==> !(#[trigger] slides@[k].source is V),
        decreases 2 * pics@.len() + slides@.len(),
    {
        if pics.is_empty() {
            break;
        }
        let ghost w = Walk { pics: models(pics@), slides: models(slides@), current: current_idx as int };
        let ghost w2 = walk_step(w, rows);
        let ghost old_fuel = fuel;
        assert(walk(w, rows, old_fuel) == walk(w2, rows, (old_fuel - 1) as nat));
        let ghost old_pics = pics@;
        let ghost old_slides = slides@;
        let current = pics[current_idx].clone();
        slides.push(current.clone());
        pics.remove(current_idx);
        proof {
            assert(models(slides@) =~= models(old_slides).push(current@));
            assert(models(pics@) =~= models(old_pics).remove(current_idx as int));
            fuel = (fuel - 1) as nat;
        }
        if pics.is_empty() {
            assert(w2.slides == models(slides@));
            assert(w2.pics.len() == 0);
            assert(forall|k: int| 0 <= k < slides@.len() - 1 ==> slides@[k] == old_slides[k]);
            break;
        }
        let ghost mid_pics = pics@;
        let ghost mid_slides = slides@;
        let next = current.next(&pics, &scores_matrix);
        current_idx = match next {
            NextOption::Idx(idx) => {
                proof {
                    assert(!(current.source is V));
                }
                idx
            },
            NextOption::Pic { pic, other_idx } => {
                slides.pop();
                pics.remove(other_idx);
                pics.push(pic);
                proof {
                    assert(models(slides@) =~= models(mid_slides).drop_last());
                    assert(models(pics@) =~= models(mid_pics).remove(other_idx as int).push(pic@));
                }
                pics.len() - 1
            },
            NextOption::NoSlide => {
                slides.pop();
                proof {
                    assert(models(slides@) =~= models(mid_slides).drop_last());
                }
                let ghost popped_slides = slides@;
                match slides.pop() {
                    Some(pic) => {
                        let ghost before_push = pics@;
                        pics.push(pic);
                        proof {
                            assert(models(slides@) =~= models(popped_slides).drop_last());
                            assert(models(pics@) =~= models(before_push).push(models(popped_slides).last()));
                        }
                        pics.len() - 1
                    },
                    None => 0,
                }
            },
        };
        proof {
            assert(w2 == Walk { pics: models(pics@), slides: models(slides@), current: current_idx as int });
        }
    }
    let ghost shown = models(slides@);
    let ghost before = slides@;
    slides.reindex();
    proof {
        assert forall|k: int| 0 <= k < slides@.len() - 1 implies !(#[trigger] slides@[k].source is V) by {
            assert(slides@[k]@.source == before[k].source);
        }
        assert(models(slides@) =~= renumbered(shown));
        assert(target == greedy_show(ps0, order));
    }
    slides
}

} // verus!
