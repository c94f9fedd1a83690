# carte

Slideshows from tagged photos. A photo is horizontal or vertical; a slide shows
one horizontal photo or two vertical ones side by side; the interest of the
transition between two slides is the least of the number of tags only in the
first, in both, and only in the second. The library reads photo lists and
builds slideshows greedily, and Verus proves each function against its
contract.

- `src/tags.rs`: a set of tags, as a vector of distinct strings.
- `src/types.rs`: photos with `u8` scores, the slideshow score, the table of
  all pairwise scores (an `ndarray` array), selection and renumbering.
- `src/greedy2.rs`: the search that orders photos by their score sums and
  follows each slide by the best remaining one, pairing vertical photos.
- `src/io.rs`: the photo-list format, read from a string.
- `src/pic_type.rs`, `src/pics_type.rs`: photos with `u16` scores, sets of
  photos keyed by their source, best matches.
- `src/greedy1.rs`: the tour that follows each photo by its best match among
  the photos left.
- `app/main.rs`: reads the data files and prints scores and timings.
