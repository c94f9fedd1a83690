use vstd::prelude::*;
use crate::tags::lemma_tags_finite;
use crate::pic_type::{
    best_match_scan, lemma_best_match_member, lemma_min_intersection_member, min_intersection_of, models, Pic,
    PicModel, PicType,
};
use crate::pics_type::{
    dedup_sources, has_source, kind_name, source_index, str_views, without, PicSet, Pics, PicsFn,
};

verus! {

broadcast use lemma_tags_finite;

/// A state of the tour: the picture to show next, the vertical photos not yet
/// used, all the pictures not yet used, and the slides so far.
pub struct Tour {
    pub pic: PicModel,
    pub verts: Seq<PicModel>,
    pub set: Seq<PicModel>,
    pub shown: Seq<PicModel>,
}

/// `s` without its last element, if it has one.
pub open spec fn popped(s: Seq<PicModel>) -> Seq<PicModel> {
    if s.len() > 0 {
        s.drop_last()
    } else {
        s
    }
}

/// One step of the tour: show the picture and take it out of the pictures
/// left. A vertical photo is then taken back from the show, together with the
/// slide before it when it was the last vertical photo, and merged with the
/// picture left that shares the fewest tags with it; any other picture is
/// followed by its best match among the pictures left.
pub open spec fn tour_step(t: Tour) -> Tour {
    let shown = t.shown.push(t.pic);
    let set = without(t.set, t.pic.source);
    match t.pic.source {
        PicType::V(_) => {
            let verts = without(t.verts, t.pic.source);
            let shown2 = if verts.len() == 0 {
                popped(shown)
            } else {
                shown
            };
            let other = min_intersection_of(t.pic, set);
            Tour {
                pic: PicModel {
                    tags: t.pic.tags.union(other.tags),
                    id: 0,
                    source: PicType::VV(t.pic.id, other.id),
                },
                verts: without(verts, other.source),
                set: without(set, other.source),
                shown: popped(shown2),
            }
        },
        _ => Tour { pic: best_match_scan(t.pic, set, set.len() as int).1, verts: t.verts, set, shown },
    }
}

/// When the tour meets a vertical photo, the next slide pairs it with a
/// partner `q`, a picture left besides it (or the photo itself when no
/// picture left qualifies): the slide is `VV` of the two ids, carries the
/// tags of both, and `q` is no longer among the pictures left.
pub proof fn lemma_tour_pairs_tags(t: Tour)
    requires
        t.pic.source is V,
    ensures
        exists|q: PicModel|
            (q == t.pic || without(t.set, t.pic.source).contains(q)) && tour_step(t).pic == (PicModel {
                tags: t.pic.tags.union(q.tags),
                id: 0,
                source: PicType::VV(t.pic.id, q.id),
            }) && tour_step(t).set == without(without(t.set, t.pic.source), q.source),
{
    let set = without(t.set, t.pic.source);
    let q = min_intersection_of(t.pic, set);
    lemma_min_intersection_member(t.pic, set);
    assert(tour_step(t).pic == (PicModel {
        tags: t.pic.tags.union(q.tags),
        id: 0,
        source: PicType::VV(t.pic.id, q.id),
    }));
}

/// The slides of the tour from `t`, taking at most `fuel` steps.
pub open spec fn tour(t: Tour, fuel: nat) -> Seq<PicModel>
    decreases fuel,
{
    if fuel == 0 || t.set.len() == 0 {
        t.shown
    } else {
        tour(tour_step(t), (fuel - 1) as nat)
    }
}

/// The tour from the first picture of `ps`.
pub open spec fn greedy_tour(ps: Seq<PicModel>) -> Seq<PicModel> {
    tour(
        Tour {
            pic: ps[0],
            verts: dedup_sources(ps.filter(|p: PicModel| p.source is V)),
            set: dedup_sources(ps),
            shown: Seq::empty(),
        },
        (2 * ps.len() + 2) as nat,
    )
}

/// `x` is a picture of `ps`, or a slide that shows a vertical photo `a` of
/// `ps` beside a picture `b` of `ps`: `VV` of their ids, with the tags of
/// both.
pub open spec fn built_from(x: PicModel, ps: Seq<PicModel>) -> bool {
    ||| ps.contains(x)
    ||| exists|a: PicModel, b: PicModel|
        #![trigger ps.contains(a), ps.contains(b)]
        ps.contains(a) && ps.contains(b) && a.source is V && x.tags == a.tags.union(b.tags) && x.source
            == PicType::VV(a.id, b.id)
}

proof fn lemma_without_within(s: Seq<PicModel>, src: PicType, x: PicModel)
    requires
        without(s, src).contains(x),
    ensures
        s.contains(x),
{
    if has_source(s, src) {
        let i = source_index(s, src);
        assert(0 <= i < s.len() && s[i].source == src);
        let r = s.remove(i);
        let j = choose|j: int| 0 <= j < r.len() && r[j] == x;
        if j < i {
            assert(s[j] == x);
        } else {
            assert(s[j + 1] == x);
        }
    }
}

proof fn lemma_dedup_within(s: Seq<PicModel>, x: PicModel)
    requires
        dedup_sources(s).contains(x),
    ensures
        s.contains(x),
    decreases s.len(),
{
    if s.len() > 0 {
        let d = dedup_sources(s.drop_last());
        if d.contains(x) {
            lemma_dedup_within(s.drop_last(), x);
            let j = choose|j: int| 0 <= j < s.drop_last().len() && s.drop_last()[j] == x;
            assert(s[j] == x);
        } else {
            let j = choose|j: int| 0 <= j < d.push(s.last()).len() && d.push(s.last())[j] == x;
            assert(j == d.len());
            assert(s[s.len() - 1] == x);
        }
    }
}

/// What every state of the tour from `ps` keeps: the pictures left are
/// pictures of `ps`, and the next picture and the slides so far are built
/// from `ps`.
spec fn tour_from(t: Tour, ps: Seq<PicModel>) -> bool {
    &&& forall|x: PicModel| #[trigger] t.set.contains(x) ==> ps.contains(x)
    &&& built_from(t.pic, ps)
    &&& forall|k: int| 0 <= k < t.shown.len() ==> built_from(#[trigger] t.shown[k], ps)
}

proof fn lemma_tour_step_from(t: Tour, ps: Seq<PicModel>)
    requires
        tour_from(t, ps),
    ensures
        tour_from(tour_step(t), ps),
{
    let shown = t.shown.push(t.pic);
    let set = without(t.set, t.pic.source);
    assert forall|k: int| 0 <= k < shown.len() implies built_from(#[trigger] shown[k], ps) by {
        if k < t.shown.len() {
            assert(shown[k] == t.shown[k]);
        }
    }
    assert forall|x: PicModel| #[trigger] set.contains(x) implies ps.contains(x) by {
        lemma_without_within(t.set, t.pic.source, x);
    }
    assert forall|k: int| 0 <= k < popped(shown).len() implies built_from(#[trigger] popped(shown)[k], ps) by {
        assert(popped(shown)[k] == shown[k]);
    }
    match t.pic.source {
        PicType::V(_) => {
            let verts = without(t.verts, t.pic.source);
            let shown2 = if verts.len() == 0 {
                popped(shown)
            } else {
                shown
            };
            assert forall|k: int| 0 <= k < popped(shown2).len() implies built_from(
                #[trigger] popped(shown2)[k],
                ps,
            ) by {
                assert(popped(shown2)[k] == shown2[k]);
            }
            let other = min_intersection_of(t.pic, set);
            lemma_min_intersection_member(t.pic, set);
            assert(ps.contains(t.pic));
            assert(ps.contains(other));
            let n = tour_step(t);
            assert(ps.contains(t.pic) && ps.contains(other) && t.pic.source is V && n.pic.tags
                == t.pic.tags.union(other.tags) && n.pic.source == PicType::VV(t.pic.id, other.id));
            assert forall|x: PicModel| #[trigger] n.set.contains(x) implies ps.contains(x) by {
                lemma_without_within(set, other.source, x);
            }
        },
        _ => {
            if set.len() > 0 {
                lemma_best_match_member(t.pic, set, set.len() as int);
                let j = choose|j: int| 0 <= j < set.len() && best_match_scan(t.pic, set, set.len() as int).1 == set[j];
                assert(set.contains(set[j]));
            } else {
                assert(best_match_scan(t.pic, set, 0).1 == t.pic);
            }
        },
    }
}

proof fn lemma_tour_from(t: Tour, ps: Seq<PicModel>, fuel: nat)
    requires
        tour_from(t, ps),
    ensures
        forall|k: int| 0 <= k < tour(t, fuel).len() ==> built_from(#[trigger] tour(t, fuel)[k], ps),
    decreases fuel,
{
    if fuel > 0 && t.set.len() > 0 {
        lemma_tour_step_from(t, ps);
        lemma_tour_from(tour_step(t), ps, (fuel - 1) as nat);
        assert(tour(t, fuel) == tour(tour_step(t), (fuel - 1) as nat));
    } else {
        assert(tour(t, fuel) == t.shown);
    }
}

/// Every slide of the tour of `ps` is a picture of `ps`, or shows a vertical
/// photo `a` of `ps` beside a picture `b` of `ps` as `VV(a.id, b.id)`, with
/// the tags of both.
pub proof fn lemma_tour_slides_built_from(ps: Seq<PicModel>)
    requires
        ps.len() > 0,
    ensures
        forall|k: int| 0 <= k < greedy_tour(ps).len() ==> built_from(#[trigger] greedy_tour(ps)[k], ps),
{
    let t = Tour {
        pic: ps[0],
        verts: dedup_sources(ps.filter(|p: PicModel| p.source is V)),
        set: dedup_sources(ps),
        shown: Seq::empty(),
    };
    assert(ps.contains(ps[0]));
    assert forall|x: PicModel| #[trigger] t.set.contains(x) implies ps.contains(x) by {
        lemma_dedup_within(ps, x);
    }
    lemma_tour_from(t, ps, (2 * ps.len() + 2) as nat);
}

/// How far the tour is from its end.
spec fn tour_measure(t: Tour) -> nat {
    2 * t.set.len() + if has_source(t.set, t.pic.source) {
        0nat
    } else {
        1nat
    }
}

proof fn lemma_without_len(s: Seq<PicModel>, src: PicType)
    ensures
        without(s, src).len() == if has_source(s, src) {
            s.len() - 1
        } else {
            s.len() as int
        },
{
    if has_source(s, src) {
        let i = source_index(s, src);
        assert(0 <= i < s.len() && s[i].source == src);
    }
}

proof fn lemma_dedup_has(s: Seq<PicModel>, i: int)
    requires
        0 <= i < s.len(),
    ensures
        has_source(dedup_sources(s), s[i].source),
    decreases s.len(),
{
    let d = dedup_sources(s.drop_last());
    if i < s.len() - 1 {
        lemma_dedup_has(s.drop_last(), i);
        let j = choose|j: int| 0 <= j < d.len() && d[j].source == s[i].source;
        if !has_source(d, s.last().source) {
            assert(d.push(s.last())[j].source == s[i].source);
        }
    } else {
        if !has_source(d, s.last().source) {
            assert(d.push(s.last())[d.len() as int].source == s[i].source);
        }
    }
}

proof fn lemma_dedup_len(s: Seq<PicModel>)
    ensures
        dedup_sources(s).len() <= s.len(),
    decreases s.len(),
{
    if s.len() > 0 {
        lemma_dedup_len(s.drop_last());
    }
}

/// A slideshow built greedily from the first picture: each picture is followed
/// by its best match among the pictures left, and each vertical photo is
/// merged with the picture left that shares the fewest tags with it.
pub fn iter_greedy(pics: &Pics) -> (r: Pics)
    requires
        pics.items@.len() > 0,
    ensures
        models(r.items@) == greedy_tour(models(pics.items@)),
        forall|k: int| 0 <= k < r.items@.len() ==> !(#[trigger] r.items@[k].source is V),
{
    let ghost ps = models(pics.items@);
    let mut pic = pics.items[0].clone();
    let kinds = vec!["V"];
    let ghost kv = kinds@;
    let verticals = pics.items.filter(kinds);
    proof {
        reveal_strlit("V");
        assert(kv.len() == 1);
        assert(kv[0] == "V");
        assert(kv[0]@ =~= seq!['V']);
        assert(str_views(kv) =~= seq![seq!['V']]);
        assert((|p: PicModel| str_views(kv).contains(kind_name(p.source))) =~= (|p: PicModel| p.source is V)) by {
            assert forall|p: PicModel| #[trigger] str_views(kv).contains(kind_name(p.source)) == (p.source is V) by {
                if p.source is V {
                    assert(str_views(kv)[0] == kind_name(p.source));
                } else if str_views(kv).contains(kind_name(p.source)) {
                    let i = choose|i: int| 0 <= i < str_views(kv).len() && str_views(kv)[i] == kind_name(p.source);
                    assert(i == 0);
                    assert(kind_name(p.source) == seq!['V']);
                    if p.source is H {
                        assert(kind_name(p.source)[0] == 'H');
                    } else {
                        assert(kind_name(p.source).len() == 2);
                    }
                }
            }
        }
    }
    let mut verts = PicSet::from_iter(verticals);
    let mut pics_set = PicSet::from_iter(crate::pics_type::clone_pics(&pics.items));
    let mut new_pics = Pics { items: Vec::with_capacity(pics.items.len()) };
    let ghost t0 = Tour { pic: pic@, verts: verts@, set: pics_set@, shown: models(new_pics.items@) };
    proof {
        assert(verts@ == dedup_sources(ps.filter(|p: PicModel| p.source is V)));
        assert(models(new_pics.items@) =~= Seq::<PicModel>::empty());
        assert(pic@ == ps[0]);
        assert(pics_set@ == dedup_sources(ps));
        assert(t0 == Tour {
            pic: ps[0],
            verts: dedup_sources(ps.filter(|p: PicModel| p.source is V)),
            set: dedup_sources(ps),
            shown: Seq::empty(),
        });
        lemma_dedup_len(ps);
        lemma_dedup_has(ps, 0);
    }
    let ghost mut fuel: nat = (2 * ps.len() + 2) as nat;
    while !pics_set.is_empty()
        invariant
            ps == models(pics.items@),
            ps.len() > 0,
            pic@.source is V ==> has_source(pics_set@, pic@.source) || pics_set@.len() == 0,
            fuel >= tour_measure(Tour { pic: pic@, verts: verts@, set: pics_set@, shown: models(new_pics.items@) }) + 1,
            tour(Tour { pic: pic@, verts: verts@, set: pics_set@, shown: models(new_pics.items@) }, fuel)
                == tour(t0, (2 * ps.len() + 2) as nat),
            forall|k: int| 0 <= k < new_pics.items@.len() ==> !(#[trigger] new_pics.items@[k].source is V),
        ensures
            pics_set@.len() == 0,
        decreases tour_measure(Tour { pic: pic@, verts: verts@, set: pics_set@, shown: models(new_pics.items@) }),
    {
        let ghost t = Tour { pic: pic@, verts: verts@, set: pics_set@, shown: models(new_pics.items@) };
        let ghost t2 = tour_step(t);
        proof {
            assert(tour(t, fuel) == tour(t2, (fuel - 1) as nat));
            lemma_without_len(t.set, t.pic.source);
            fuel = (fuel - 1) as nat;
        }
        let ghost shown0 = new_pics.items@;
        new_pics.items.push(pic.clone());
        pics_set.remove(&pic);
        if pics.items.len() == 0 {
            assert(false);
            break;
        }
        pic = match pic.source {
            PicType::V(_) => {
                verts.remove(&pic);
                if verts.is_empty() {
                    new_pics.items.pop();
                }
                let other = pic.min_intersection(pics_set.to_pics());
                verts.remove(&other);
                pics_set.remove(&other);
                proof {
                    lemma_without_len(without(t.set, t.pic.source), other@.source);
                }
                new_pics.items.pop();
                Pic {
                    id: 0,
                    tags: pic.union_with(&other),
                    source: PicType::VV(pic.id, other.id),
                }
            },
            PicType::H(_) => {
                let next = pic.best_match(pics_set.as_pics());
                proof {
                    if pics_set@.len() > 0 {
                        lemma_best_match_member(t.pic, pics_set@, pics_set@.len() as int);
                    }
                }
                next
            },
            PicType::VV(_, _) => {
                let next = pic.best_match(pics_set.as_pics());
                proof {
                    if pics_set@.len() > 0 {
                        lemma_best_match_member(t.pic, pics_set@, pics_set@.len() as int);
                    }
                }
                next
            },
        };
        proof {
            assert(models(new_pics.items@) =~= t2.shown);
            assert(t2 == Tour { pic: pic@, verts: verts@, set: pics_set@, shown: models(new_pics.items@) });
        }
    }
    assert(tour(Tour { pic: pic@, verts: verts@, set: pics_set@, shown: models(new_pics.items@) }, fuel)
        == models(new_pics.items@));
    new_pics
}

} // verus!
