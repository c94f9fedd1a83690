use carte::tags::Tags;
use carte::types::{score_fits, Pic, PicType, Pics, PicsFn, Score};

fn tags(words: &[&str]) -> Tags {
    let mut t = Tags::new();
    for w in words {
        t.insert(w.to_string());
    }
    t
}

fn sorted(t: &Tags) -> Vec<String> {
    let mut v = t.to_vec();
    v.sort();
    v
}

fn pic(id: usize, source: PicType, words: &[&str]) -> Pic {
    Pic { tags: tags(words), id, source }
}

/// The photos of the example of the slideshow problem.
fn example() -> Pics {
    vec![
        pic(0, PicType::H(0), &["cat", "beach", "sun"]),
        pic(1, PicType::V(1), &["selfie", "smile"]),
        pic(2, PicType::V(2), &["garden", "selfie"]),
        pic(3, PicType::H(3), &["garden", "cat"]),
    ]
}

fn numbered(prefix: &str, n: usize) -> Vec<String> {
    (0..n).map(|i| format!("{}{}", prefix, i)).collect()
}

#[test]
fn score_with_is_the_least_of_three_counts() {
    let p = example();
    assert_eq!(p[0].score_with(&p[3]), 1);
    assert_eq!(p[0].score_with(&p[1]), 0);
    assert_eq!(p[2].score_with(&p[3]), 1);
    let a = pic(0, PicType::H(0), &["a", "b", "c", "d"]);
    let b = pic(1, PicType::H(1), &["c", "d", "e", "f", "g"]);
    assert_eq!(a.score_with(&b), 2);
}

#[test]
fn score_with_is_symmetric() {
    let p = example();
    for a in &p {
        for b in &p {
            assert_eq!(a.score_with(b), b.score_with(a));
        }
    }
}

#[test]
fn score_with_itself_is_zero() {
    for a in &example() {
        assert_eq!(a.score_with(a), 0);
    }
}

#[test]
fn score_with_counts_modulo_256() {
    // 300 tags only in a, 260 shared, 270 only in b.
    let only_a = numbered("a", 300);
    let both = numbered("c", 260);
    let only_b = numbered("b", 270);
    let mut ta = Tags::new();
    let mut tb = Tags::new();
    for t in only_a.iter().chain(both.iter()) {
        ta.insert(t.clone());
    }
    for t in only_b.iter().chain(both.iter()) {
        tb.insert(t.clone());
    }
    let a = Pic { tags: ta, id: 0, source: PicType::H(0) };
    let b = Pic { tags: tb, id: 1, source: PicType::H(1) };
    // 300 % 256 = 44, 260 % 256 = 4, 270 % 256 = 14.
    assert_eq!(a.score_with(&b), 4);
}

#[test]
fn combine_with_records_the_first_id_twice() {
    let p = example();
    let c = p[1].combine_with(&p[2], 7);
    assert_eq!(c.id, 7);
    assert!(matches!(c.source, PicType::VV(1, 1)));
    assert_eq!(sorted(&c.tags), vec!["garden", "selfie", "smile"]);
}

#[test]
fn all_scores_against_each_picture() {
    let p = example();
    assert_eq!(p[3].all_scores(&p).to_vec(), vec![1, 0, 1, 0]);
    assert_eq!(p[0].all_scores(&vec![]).to_vec(), Vec::<u8>::new());
}

#[test]
fn intersect_and_union() {
    let p = example();
    assert_eq!(sorted(&p[0].intersect_with(&p[3])), vec!["cat"]);
    assert_eq!(sorted(&p[0].union_with(&p[3])), vec!["beach", "cat", "garden", "sun"]);
    assert!(p[0].intersect_with(&p[1]).is_empty());
}

#[test]
fn min_intersection_takes_the_first_least_sharer() {
    let p = example();
    // p[2] shares 1 tag with p[1] and p[3], none with p[0].
    let m = p[2].min_intersection(&p);
    assert!(matches!(m.source, PicType::H(0)));
    let q = vec![p[1].clone(), p[3].clone()];
    let m = p[2].min_intersection(&q);
    assert!(matches!(m.source, PicType::V(1)));
}

#[test]
fn source_of_a_vertical_photo() {
    let p = example();
    assert_eq!(p[1].source(), 1);
    assert_eq!(p[2].source(), 2);
}

#[test]
fn pictures_are_equal_by_source() {
    let a = pic(0, PicType::V(5), &["x"]);
    let b = pic(9, PicType::V(5), &["y"]);
    let c = pic(0, PicType::H(5), &["x"]);
    let d = pic(0, PicType::VV(1, 2), &[]);
    let e = pic(0, PicType::VV(1, 3), &[]);
    assert!(a == b);
    assert!(a != c);
    assert!(d != e);
    assert!(d == d.clone());
}

#[test]
fn score_of_a_slideshow() {
    let p = example();
    assert_eq!(p.score(), 0 + 1 + 1);
    let show = vec![p[0].clone(), p[3].clone(), p[2].clone(), p[1].clone()];
    assert_eq!(show.score(), 1 + 1 + 1);
    assert_eq!(Vec::<Pic>::new().score(), 0);
    assert_eq!(vec![p[0].clone()].score(), 0);
}

#[test]
fn a_slideshow_played_backwards_scores_the_same() {
    let p = example();
    let show = vec![p[0].clone(), p[3].clone(), p[2].clone(), p[1].clone()];
    let back = vec![p[1].clone(), p[2].clone(), p[3].clone(), p[0].clone()];
    assert_eq!(show.score(), back.score());
}

#[test]
fn score_fits_in_a_byte() {
    let p = example();
    assert!(score_fits(&p));
    // 256 transitions worth 1 each do not fit.
    let mut long: Pics = Vec::new();
    for i in 0..257 {
        long.push(pic(i, PicType::H(i), &["x", "y", if i % 2 == 0 { "a" } else { "b" }]));
    }
    assert!(!score_fits(&long));
}

#[test]
fn scores_matrix_of_the_example() {
    let p = example();
    let m = p.scores_matrix();
    assert_eq!(m.len(), 4);
    let expected = [[0, 0, 0, 1], [0, 0, 1, 0], [0, 1, 0, 1], [1, 0, 1, 0]];
    for i in 0..4 {
        for j in 0..4 {
            assert_eq!(m.get(i, j), Some(expected[i][j]));
            assert_eq!(m.get(i, j), m.get(j, i));
        }
    }
    assert_eq!(m.get(4, 0), None);
    assert_eq!(m.get(0, 4), None);
    assert_eq!(Vec::<Pic>::new().scores_matrix().len(), 0);
}

#[test]
fn filter_by_kind() {
    let mut p = example();
    p.push(pic(4, PicType::VV(1, 2), &["z"]));
    let h = p.filter(vec!["H"]);
    assert_eq!(h.iter().map(|x| x.id).collect::<Vec<_>>(), vec![0, 3]);
    let v = p.filter(vec!["V", "VV"]);
    assert_eq!(v.iter().map(|x| x.id).collect::<Vec<_>>(), vec![1, 2, 4]);
    assert!(p.filter(vec![]).is_empty());
    assert!(p.filter(vec!["h", "X"]).is_empty());
}

#[test]
fn reindex_numbers_by_position() {
    let mut p = vec![pic(7, PicType::H(7), &["a"]), pic(3, PicType::V(3), &["b"])];
    p.reindex();
    assert_eq!(p[0].id, 0);
    assert_eq!(p[1].id, 1);
    assert!(matches!(p[0].source, PicType::H(7)));
    assert!(matches!(p[1].source, PicType::V(3)));
    assert_eq!(sorted(&p[1].tags), vec!["b"]);
}

#[test]
fn filters_by_single_kinds_split_the_list() {
    let mut p = example();
    p.push(pic(4, PicType::VV(1, 2), &["z"]));
    let n = p.filter(vec!["H"]).len() + p.filter(vec!["V"]).len() + p.filter(vec!["VV"]).len();
    assert_eq!(n, p.len());
    let all = p.filter(vec!["H", "V", "VV"]);
    assert_eq!(all.len(), p.len());
    for (a, b) in all.iter().zip(p.iter()) {
        assert_eq!(a.id, b.id);
        assert_eq!(format!("{:?}", a.source), format!("{:?}", b.source));
        assert_eq!(sorted(&a.tags), sorted(&b.tags));
    }
    assert!(p.filter(vec![]).is_empty());
}
