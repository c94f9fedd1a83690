use carte::pic_type::{Pic, PicType};
use carte::pics_type::{score_fits, PicSet, Pics, PicsFn, PicsVec, PicsVecFn};
use carte::tags::Tags;

fn tags(words: &[&str]) -> Tags {
    let mut t = Tags::new();
    for w in words {
        t.insert(w.to_string());
    }
    t
}

fn sorted(t: &Tags) -> Vec<String> {
    let mut v = t.to_vec();
    v.sort();
    v
}

fn pic(id: usize, source: PicType, words: &[&str]) -> Pic {
    Pic { tags: tags(words), id, source }
}

fn example() -> PicsVec {
    vec![
        pic(0, PicType::H(0), &["cat", "beach", "sun"]),
        pic(1, PicType::V(1), &["selfie", "smile"]),
        pic(2, PicType::V(2), &["garden", "selfie"]),
        pic(3, PicType::H(3), &["garden", "cat"]),
    ]
}

#[test]
fn old_score_with() {
    let p = example();
    assert_eq!(p[0].score_with(&p[3]), 1u16);
    assert_eq!(p[3].score_with(&p[0]), 1u16);
    assert_eq!(p[1].score_with(&p[1]), 0u16);
}

#[test]
fn old_score_with_counts_beyond_a_byte() {
    let mut ta = Tags::new();
    let mut tb = Tags::new();
    for i in 0..300 {
        ta.insert(format!("c{}", i));
        tb.insert(format!("c{}", i));
    }
    for i in 0..280 {
        ta.insert(format!("a{}", i));
    }
    for i in 0..290 {
        tb.insert(format!("b{}", i));
    }
    let a = Pic { tags: ta, id: 0, source: PicType::H(0) };
    let b = Pic { tags: tb, id: 1, source: PicType::H(1) };
    assert_eq!(a.score_with(&b), 280);
}

#[test]
fn old_all_scores_has_100_cells() {
    let p = Pics { items: example() };
    let s = p.items[3].all_scores(&p).to_vec();
    assert_eq!(s.len(), 100);
    assert_eq!(&s[0..4], &[1, 0, 1, 0]);
    assert!(s[4..].iter().all(|&x| x == 0));
}

#[test]
fn old_combine_and_source() {
    let p = example();
    let c = p[2].combine_with(&p[1], 9);
    assert!(matches!(c.source, PicType::VV(2, 2)));
    assert_eq!(c.id, 9);
    assert_eq!(sorted(&c.tags), vec!["garden", "selfie", "smile"]);
    assert_eq!(p[1].source(), 1);
    assert_eq!(sorted(&p[0].intersect_with(&p[3])), vec!["cat"]);
    assert_eq!(sorted(&p[1].union_with(&p[2])), vec!["garden", "selfie", "smile"]);
}

#[test]
fn old_min_intersection() {
    let p = example();
    let m = p[2].min_intersection(Pics { items: example() });
    assert!(matches!(m.source, PicType::H(0)));
    let m = p[2].min_intersection(Pics { items: vec![] });
    assert!(matches!(m.source, PicType::V(2)));
    let m = p[2].min_intersection(Pics { items: vec![p[1].clone(), p[3].clone()] });
    assert!(matches!(m.source, PicType::V(1)));
}

#[test]
fn old_best_match() {
    let p = example();
    // The first picture is always taken, then only a strictly better one.
    let b = p[0].clone().best_match(&Pics { items: vec![p[1].clone(), p[2].clone(), p[3].clone()] });
    assert!(matches!(b.source, PicType::H(3)));
    let b = p[3].clone().best_match(&Pics { items: vec![p[1].clone(), p[2].clone()] });
    assert!(matches!(b.source, PicType::V(2)));
    // With nothing to choose from, the picture itself.
    let b = p[1].clone().best_match(&Pics { items: vec![] });
    assert!(matches!(b.source, PicType::V(1)));
    // A picture with the source of `self` is taken, and so is the next one.
    let twin = pic(8, PicType::H(0), &["cat"]);
    let b = p[0].clone().best_match(&Pics { items: vec![twin, p[1].clone()] });
    assert!(matches!(b.source, PicType::V(1)));
}

#[test]
fn pic_set_keeps_the_first_of_each_source() {
    let mut items = example();
    items.push(pic(7, PicType::H(0), &["other"]));
    let mut s = PicSet::from_iter(items);
    assert_eq!(s.len(), 4);
    assert_eq!(s.as_pics().items[0].id, 0);
    assert!(s.remove(&pic(99, PicType::V(1), &[])));
    assert!(!s.remove(&pic(99, PicType::V(1), &[])));
    assert_eq!(s.len(), 3);
    let ids: Vec<usize> = s.to_pics().items.iter().map(|p| p.id).collect();
    assert_eq!(ids, vec![0, 2, 3]);
    assert!(!s.is_empty());
    assert!(PicSet::from_iter(vec![]).is_empty());
}

#[test]
fn old_filter_and_reindex() {
    let mut p = example();
    let v = p.filter(vec!["V"]);
    assert_eq!(v.iter().map(|x| x.id).collect::<Vec<_>>(), vec![1, 2]);
    p.reverse();
    p.reindex();
    assert_eq!(p.iter().map(|x| x.id).collect::<Vec<_>>(), vec![0, 1, 2, 3]);
    assert!(matches!(p[0].source, PicType::H(3)));
}

#[test]
fn old_score_of_a_slideshow() {
    let p = example();
    assert_eq!(p.score(), 2u16);
    assert!(score_fits(&p));
}

#[test]
fn old_scores_matrix_needs_100_pictures() {
    let mut p: PicsVec = Vec::new();
    for i in 0..100 {
        p.push(pic(i, PicType::H(i), &["x", if i % 2 == 0 { "even" } else { "odd" }]));
    }
    let m = p.scores_matrix();
    assert_eq!(m.len(), 100);
    assert_eq!(m.get(0, 1), Some(1));
    assert_eq!(m.get(0, 2), Some(0));
    assert_eq!(m.get(5, 5), Some(0));
    assert_eq!(m.get(100, 0), None);
    assert_eq!(Vec::<Pic>::new().scores_matrix().len(), 0);
}

#[test]
fn old_filters_by_single_kinds_split_the_list() {
    let mut p = example();
    p.push(pic(4, PicType::VV(1, 2), &["z"]));
    let n = p.filter(vec!["H"]).len() + p.filter(vec!["V"]).len() + p.filter(vec!["VV"]).len();
    assert_eq!(n, p.len());
    let all = p.filter(vec!["H", "V", "VV"]);
    assert_eq!(all.len(), p.len());
    for (a, b) in all.iter().zip(p.iter()) {
        assert_eq!(a.id, b.id);
        assert_eq!(format!("{:?}", a.source), format!("{:?}", b.source));
        assert_eq!(sorted(&a.tags), sorted(&b.tags));
    }
    assert!(p.filter(vec![]).is_empty());
}
