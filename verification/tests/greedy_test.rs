use carte::greedy1::iter_greedy;
use carte::greedy2::iterative_greedy;
use carte::pic_type;
use carte::pics_type;
use carte::tags::Tags;
use carte::types::{Pic, PicType, Pics, Score};

fn tags(words: &[&str]) -> Tags {
    let mut t = Tags::new();
    for w in words {
        t.insert(w.to_string());
    }
    t
}

fn sorted(t: &Tags) -> Vec<String> {
    let mut v = t.to_vec();
    v.sort();
    v
}

fn example() -> Pics {
    vec![
        Pic { tags: tags(&["cat", "beach", "sun"]), id: 0, source: PicType::H(0) },
        Pic { tags: tags(&["selfie", "smile"]), id: 1, source: PicType::V(1) },
        Pic { tags: tags(&["garden", "selfie"]), id: 2, source: PicType::V(2) },
        Pic { tags: tags(&["garden", "cat"]), id: 3, source: PicType::H(3) },
    ]
}

fn old_example() -> pics_type::Pics {
    let mk = |words: &[&str], id: usize, source: pic_type::PicType| pic_type::Pic { tags: tags(words), id, source };
    pics_type::Pics {
        items: vec![
            mk(&["cat", "beach", "sun"], 0, pic_type::PicType::H(0)),
            mk(&["selfie", "smile"], 1, pic_type::PicType::V(1)),
            mk(&["garden", "selfie"], 2, pic_type::PicType::V(2)),
            mk(&["garden", "cat"], 3, pic_type::PicType::H(3)),
        ],
    }
}

#[test]
fn iterative_greedy_on_the_example() {
    let show = iterative_greedy(&example());
    assert_eq!(show.len(), 3);
    assert!(matches!(show[0].source, PicType::VV(2, 1)));
    assert_eq!(sorted(&show[0].tags), vec!["garden", "selfie", "smile"]);
    assert!(matches!(show[1].source, PicType::H(3)));
    assert!(matches!(show[2].source, PicType::H(0)));
    for (i, p) in show.iter().enumerate() {
        assert_eq!(p.id, i);
    }
    assert_eq!(show.score(), 2);
}

#[test]
fn iterative_greedy_edge_cases() {
    assert!(iterative_greedy(&vec![]).is_empty());
    // A single vertical photo stays, as the last slide.
    let one = vec![Pic { tags: tags(&["a"]), id: 0, source: PicType::V(0) }];
    let show = iterative_greedy(&one);
    assert_eq!(show.len(), 1);
    assert!(matches!(show[0].source, PicType::V(0)));
    // A vertical photo with no partner is dropped, and the slide before it
    // goes back to the photos left.
    let two = vec![
        Pic { tags: tags(&["a"]), id: 0, source: PicType::V(0) },
        Pic { tags: tags(&["a", "b"]), id: 1, source: PicType::H(1) },
    ];
    let show = iterative_greedy(&two);
    assert!(show.iter().take(show.len().saturating_sub(1)).all(|p| !matches!(p.source, PicType::V(_))));
}

#[test]
fn iterative_greedy_pairs_vertical_photos() {
    let pics = vec![
        Pic { tags: tags(&["a", "b"]), id: 0, source: PicType::V(0) },
        Pic { tags: tags(&["c"]), id: 1, source: PicType::V(1) },
        Pic { tags: tags(&["a", "x"]), id: 2, source: PicType::V(2) },
        Pic { tags: tags(&["b", "c", "x"]), id: 3, source: PicType::H(3) },
    ];
    let show = iterative_greedy(&pics);
    for p in show.iter().take(show.len() - 1) {
        assert!(!matches!(p.source, PicType::V(_)));
    }
}

#[test]
fn iter_greedy_on_the_example() {
    let show = iter_greedy(&old_example());
    assert_eq!(show.items.len(), 2);
    assert!(matches!(show.items[0].source, pic_type::PicType::H(0)));
    assert!(matches!(show.items[1].source, pic_type::PicType::H(3)));
}

#[test]
fn iter_greedy_never_shows_a_vertical_photo() {
    let mk = |words: &[&str], id: usize, source: pic_type::PicType| pic_type::Pic { tags: tags(words), id, source };
    let pics = pics_type::Pics {
        items: vec![
            mk(&["a", "b"], 0, pic_type::PicType::V(0)),
            mk(&["c"], 1, pic_type::PicType::V(1)),
            mk(&["a", "c"], 2, pic_type::PicType::H(2)),
            mk(&["b"], 3, pic_type::PicType::V(3)),
        ],
    };
    let show = iter_greedy(&pics);
    assert!(show.items.iter().all(|p| !matches!(p.source, pic_type::PicType::V(_))));
    let single = pics_type::Pics { items: vec![mk(&["a"], 0, pic_type::PicType::V(0))] };
    assert!(iter_greedy(&single).items.is_empty());
}
