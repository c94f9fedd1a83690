use vstd::prelude::*;
use crate::tags::Tags;
use crate::types::{models, Pic, PicModel, PicType, Pics};

verus! {

broadcast use {vstd::seq::Seq::lemma_push_to_set_commute, vstd::string::axiom_spec_iter};

/// Why a photo list could not be read.
#[derive(Debug, Clone, Copy, PartialEq, Eq, Structural)]
pub enum ReadError {
    /// The first line is not a number of photos.
    BadHeader,
    /// Photo line `i` has no number of tags.
    MissingTagCount(usize),
    /// The number of tags on photo line `i` is not a number.
    BadTagCount(usize),
    /// Photo line `i` is neither "H" nor "V".
    UnknownKind(usize),
}

// ---------------------------------------------------------------------------
// The format, as mathematics.
/// The characters that `char::is_whitespace` accepts (Unicode White_Space).
pub open spec fn is_space(c: char) -> bool {
    let u = c as u32;
    ||| 9 <= u <= 13
    ||| u == 32
    ||| u == 0x85
    ||| u == 0xA0
    ||| u == 0x1680
    ||| 0x2000 <= u <= 0x200A
    ||| u == 0x2028
    ||| u == 0x2029
    ||| u == 0x202F
    ||| u == 0x205F
    ||| u == 0x3000
}

/// The first position at or after `k` that does not hold white space, or the
/// length.
pub open spec fn first_nonspace(s: Seq<char>, k: int) -> int
    decreases s.len() - k,
{
    if k >= s.len() {
        s.len() as int
    } else if is_space(s[k]) {
        first_nonspace(s, k + 1)
    } else {
        k
    }
}

/// The end of the prefix `s[..k]` without its trailing white space.
pub open spec fn end_nonspace(s: Seq<char>, k: int) -> int
    decreases k,
{
    if k <= 0 {
        0
    } else if is_space(s[k - 1]) {
        end_nonspace(s, k - 1)
    } else {
        k
    }
}

/// `s` without its leading and trailing white space.
pub open spec fn trimmed(s: Seq<char>) -> Seq<char> {
    let a = first_nonspace(s, 0);
    if a >= s.len() {
        Seq::empty()
    } else {
        s.subrange(a, end_nonspace(s, s.len() as int))
    }
}

/// An ASCII decimal digit.
pub open spec fn is_digit(c: char) -> bool {
    48 <= c as u32 <= 57
}

/// The number that a string of digits writes in decimal.
pub open spec fn digits_value(s: Seq<char>) -> nat
    decreases s.len(),
{
    if s.len() == 0 {
        0
    } else {
        digits_value(s.drop_last()) * 10 + ((s.last() as u32 - 48) as nat)
    }
}

/// Whether every character of `s` is a digit.
pub open spec fn all_digits(s: Seq<char>) -> bool {
    forall|i: int| 0 <= i < s.len() ==> is_digit(#[trigger] s[i])
}

/// `s` without a leading `+`.
pub open spec fn unsigned_body(s: Seq<char>) -> Seq<char> {
    if s.len() > 0 && s[0] == '+' {
        s.drop_first()
    } else {
        s
    }
}

/// What `usize::from_str` gives: an optional `+` then at least one digit,
/// with a value that fits.
pub open spec fn parse_usize(s: Seq<char>) -> Option<usize> {
    let body = unsigned_body(s);
    if body.len() > 0 && all_digits(body) && digits_value(body) <= usize::MAX {
        Some(digits_value(body) as usize)
    } else {
        None
    }
}

/// The decimal digit for `d`, for `d` below 10.
pub open spec fn digit_char(d: nat) -> char {
    if d == 0 {
        '0'
    } else if d == 1 {
        '1'
    } else if d == 2 {
        '2'
    } else if d == 3 {
        '3'
    } else if d == 4 {
        '4'
    } else if d == 5 {
        '5'
    } else if d == 6 {
        '6'
    } else if d == 7 {
        '7'
    } else if d == 8 {
        '8'
    } else {
        '9'
    }
}

proof fn lemma_digit_char(d: nat)
    requires
        d < 10,
    ensures
        digit_char(d) as u32 == d + 48,
{
}

/// The decimal numeral of `n`, most significant digit first.
pub open spec fn decimal(n: nat) -> Seq<char>
    decreases n,
{
    if n < 10 {
        seq![digit_char(n)]
    } else {
        decimal(n / 10).push(digit_char(n % 10))
    }
}

/// The decimal numeral of `n` is a non-empty string of digits, not starting
/// with `+`, that writes `n`.
proof fn lemma_decimal(n: nat)
    ensures
        decimal(n).len() > 0,
        all_digits(decimal(n)),
        digits_value(decimal(n)) == n,
        decimal(n)[0] != '+',
    decreases n,
{
    assert(n % 10 < 10 && n == (n / 10) * 10 + n % 10) by (nonlinear_arith);
    lemma_digit_char(n % 10);
    if n < 10 {
        lemma_digit_char(n);
        assert(seq![digit_char(n)].drop_last() =~= Seq::<char>::empty());
        assert(digits_value(seq![digit_char(n)]) == digits_value(Seq::<char>::empty()) * 10 + ((
        digit_char(n) as u32 - 48) as nat));
    } else {
        lemma_decimal(n / 10);
        let d = decimal(n / 10);
        let c = digit_char(n % 10);
        assert(d.push(c).drop_last() =~= d);
        assert(d.push(c).last() == c);
        assert(digits_value(d.push(c)) == digits_value(d) * 10 + ((c as u32 - 48) as nat));
        assert(decimal(n) == d.push(c));
        assert(d.push(c)[0] == d[0]);
        assert forall|i: int| 0 <= i < d.push(c).len() implies is_digit(#[trigger] d.push(c)[i]) by {
            if i < d.len() {
                assert(d.push(c)[i] == d[i]);
            }
        }
    }
}

/// `usize::from_str` reads back the decimal numeral of every `usize`, with or
/// without a leading `+`.
pub proof fn lemma_parse_usize_decimal(n: usize)
    ensures
        parse_usize(decimal(n as nat)) == Some(n),
        parse_usize(seq!['+'] + decimal(n as nat)) == Some(n),
{
    lemma_decimal(n as nat);
    let d = decimal(n as nat);
    assert(unsigned_body(d) == d);
    assert((seq!['+'] + d)[0] == '+');
    assert((seq!['+'] + d).drop_first() =~= d);
}

/// The pieces of `s` between the occurrences of `c` (as `str::split` gives
/// them: one more than there are separators).
pub open spec fn split_on(s: Seq<char>, c: char) -> Seq<Seq<char>>
    decreases s.len(),
{
    if s.len() == 0 {
        seq![Seq::<char>::empty()]
    } else {
        let p = split_on(s.drop_last(), c);
        if s.last() == c {
            p.push(Seq::<char>::empty())
        } else {
            p.update(p.len() - 1, p.last().push(s.last()))
        }
    }
}

/// The position of the first line feed, or the length.
pub open spec fn newline_at(s: Seq<char>) -> int {
    first_of(s, '\n', 0)
}

/// The first position at or after `k` that holds `c`, or the length.
pub open spec fn first_of(s: Seq<char>, c: char, k: int) -> int
    decreases s.len() - k,
{
    if k >= s.len() {
        s.len() as int
    } else if s[k] == c {
        k
    } else {
        first_of(s, c, k + 1)
    }
}

/// The first line, with its line feed.
pub open spec fn header_of(s: Seq<char>) -> Seq<char> {
    if newline_at(s) < s.len() {
        s.take(newline_at(s) + 1)
    } else {
        s
    }
}

/// What follows the first line.
pub open spec fn body_of(s: Seq<char>) -> Seq<char> {
    if newline_at(s) < s.len() {
        s.skip(newline_at(s) + 1)
    } else {
        Seq::empty()
    }
}

/// A line without the carriage return that ended it.
pub open spec fn strip_cr(p: Seq<char>) -> Seq<char> {
    if p.len() > 0 && p.last() == '\r' {
        p.drop_last()
    } else {
        p
    }
}

/// The lines of `s` as `BufRead::lines` gives them: split at line feeds, a
/// carriage return before a line feed dropped, and no line after a final line
/// feed.
pub open spec fn lines_of(s: Seq<char>) -> Seq<Seq<char>> {
    let p = split_on(s, '\n');
    let k = if p.last().len() == 0 {
        p.len() - 1
    } else {
        p.len() as int
    };
    Seq::new(
        k as nat,
        |i: int|
            if i < p.len() - 1 {
                strip_cr(p[i])
            } else {
                p[i]
            },
    )
}

/// The photo that line `ix` describes: its kind, its number of tags, then
/// its tags, separated by single spaces.
pub open spec fn parse_line(ix: int, line: Seq<char>) -> Result<PicModel, ReadError> {
    let toks = split_on(line, ' ');
    if toks.len() < 2 {
        Err(ReadError::MissingTagCount(ix as usize))
    } else if parse_usize(toks[1]) is None {
        Err(ReadError::BadTagCount(ix as usize))
    } else if toks[0] == seq!['H'] {
        Ok(PicModel { tags: toks.skip(2).to_set(), id: ix as usize, source: PicType::H(ix as usize) })
    } else if toks[0] == seq!['V'] {
        Ok(PicModel { tags: toks.skip(2).to_set(), id: ix as usize, source: PicType::V(ix as usize) })
    } else {
        Err(ReadError::UnknownKind(ix as usize))
    }
}

/// The photos of the first `k` lines, or the error of the first bad one.
pub open spec fn parse_lines(lines: Seq<Seq<char>>, k: int) -> Result<Seq<PicModel>, ReadError>
    decreases k,
{
    if k <= 0 {
        Ok(Seq::empty())
    } else {
        match parse_lines(lines, k - 1) {
            Err(e) => Err(e),
            Ok(ps) => match parse_line(k - 1, lines[k - 1]) {
                Err(e) => Err(e),
                Ok(p) => Ok(ps.push(p)),
            },
        }
    }
}

/// The photos of a photo list: a first line with their number, then one line
/// per photo.
pub open spec fn parse_text(text: Seq<char>) -> Result<Seq<PicModel>, ReadError> {
    if parse_usize(trimmed(header_of(text))) is None {
        Err(ReadError::BadHeader)
    } else {
        let lines = lines_of(body_of(text));
        parse_lines(lines, lines.len() as int)
    }
}

// ---------------------------------------------------------------------------
// Lemmas.
proof fn lemma_split_nonempty(s: Seq<char>, c: char)
    ensures
        split_on(s, c).len() >= 1,
    decreases s.len(),
{
    if s.len() > 0 {
        lemma_split_nonempty(s.drop_last(), c);
    }
}

/// The pieces of `p` written one after the other, with `c` between each two.
pub open spec fn joined(p: Seq<Seq<char>>, c: char) -> Seq<char>
    decreases p.len(),
{
    if p.len() == 0 {
        Seq::empty()
    } else if p.len() == 1 {
        p[0]
    } else {
        joined(p.drop_last(), c) + seq![c] + p.last()
    }
}

/// Splitting `s` at `c` gives pieces that hold no `c` and that, joined again
/// with `c`, give `s` back.
pub proof fn lemma_split_on_pieces(s: Seq<char>, c: char)
    ensures
        joined(split_on(s, c), c) == s,
        forall|i: int| 0 <= i < split_on(s, c).len() ==> !(#[trigger] split_on(s, c)[i]).contains(c),
    decreases s.len(),
{
    if s.len() == 0 {
        assert(joined(seq![Seq::<char>::empty()], c) == Seq::<char>::empty());
    } else {
        let t = s.drop_last();
        let x = s.last();
        lemma_split_on_pieces(t, c);
        lemma_split_nonempty(t, c);
        let p = split_on(t, c);
        assert(t.push(x) =~= s);
        if x == c {
            let q = p.push(Seq::<char>::empty());
            assert(q.drop_last() =~= p);
            assert(joined(q, c) =~= s);
            assert forall|i: int| 0 <= i < q.len() implies !(#[trigger] q[i]).contains(c) by {
                if i < p.len() {
                    assert(q[i] == p[i]);
                }
            }
        } else {
            let q = p.update(p.len() - 1, p.last().push(x));
            if p.len() == 1 {
                assert(joined(q, c) =~= s);
            } else {
                assert(q.drop_last() =~= p.drop_last());
                assert(joined(p, c) == joined(p.drop_last(), c) + seq![c] + p.last());
                assert(joined(q, c) =~= s);
            }
            assert forall|i: int| 0 <= i < q.len() implies !(#[trigger] q[i]).contains(c) by {
                if i < p.len() - 1 {
                    assert(q[i] == p[i]);
                } else {
                    assert(!p[i].contains(c));
                    if q[i].contains(c) {
                        let j = choose|j: int| 0 <= j < q[i].len() && q[i][j] == c;
                        assert(p[i].push(x)[j] == c);
                        if j < p[i].len() {
                            assert(p[i][j] == c);
                        }
                    }
                }
            }
        }
    }
}

/// Appending a stretch without `c` extends the last piece.
proof fn lemma_split_append_plain(s: Seq<char>, t: Seq<char>, c: char)
    requires
        !t.contains(c),
    ensures
        split_on(s + t, c) == split_on(s, c).update(
            split_on(s, c).len() - 1,
            split_on(s, c).last() + t,
        ),
    decreases t.len(),
{
    lemma_split_nonempty(s, c);
    let p = split_on(s, c);
    if t.len() == 0 {
        assert(s + t =~= s);
        assert(p.last() + t =~= p.last());
        assert(p.update(p.len() - 1, p.last()) =~= p);
    } else {
        let t1 = t.drop_last();
        let x = t.last();
        assert(t[t.len() - 1] == x);
        assert(x != c);
        assert forall|j: int| 0 <= j < t1.len() implies t1[j] != c by {
            assert(t[j] == t1[j]);
        }
        lemma_split_append_plain(s, t1, c);
        assert((s + t).drop_last() =~= s + t1);
        assert((s + t).last() == x);
        let q = split_on(s + t1, c);
        assert(q.len() == p.len());
        assert(q.last() == p.last() + t1);
        assert((p.last() + t1).push(x) =~= p.last() + t);
        assert(q.update(q.len() - 1, q.last().push(x)) =~= p.update(p.len() - 1, p.last() + t));
    }
}

/// Splitting pieces that hold no `c`, once joined with `c`, gives them back.
pub proof fn lemma_split_joined(p: Seq<Seq<char>>, c: char)
    requires
        p.len() >= 1,
        forall|i: int| 0 <= i < p.len() ==> !(#[trigger] p[i]).contains(c),
    ensures
        split_on(joined(p, c), c) == p,
    decreases p.len(),
{
    if p.len() == 1 {
        lemma_split_append_plain(Seq::<char>::empty(), p[0], c);
        assert(Seq::<char>::empty() + p[0] =~= p[0]);
        assert(split_on(Seq::<char>::empty(), c) == seq![Seq::<char>::empty()]);
        assert(seq![Seq::<char>::empty()].update(0, Seq::<char>::empty() + p[0]) =~= p);
    } else {
        let q = p.drop_last();
        assert forall|i: int| 0 <= i < q.len() implies !(#[trigger] q[i]).contains(c) by {
            assert(q[i] == p[i]);
        }
        lemma_split_joined(q, c);
        let j = joined(q, c);
        assert(!p[p.len() - 1].contains(c));
        lemma_split_append_plain(j.push(c), p.last(), c);
        assert(joined(p, c) =~= j.push(c) + p.last());
        assert(j.push(c).drop_last() =~= j);
        assert(split_on(j.push(c), c) == q.push(Seq::<char>::empty()));
        assert(q.push(Seq::<char>::empty()).update(q.len() as int, Seq::<char>::empty() + p.last()) =~= p);
    }
}

/// A line made of a kind ("H" or "V"), the decimal numeral of a tag count
/// and tags without spaces, separated by single spaces, is read as a photo of
/// that kind with those tags, numbered by the line.
pub proof fn lemma_parse_line_well_formed(ix: usize, vertical: bool, n: usize, tags: Seq<Seq<char>>)
    requires
        forall|i: int| 0 <= i < tags.len() ==> !(#[trigger] tags[i]).contains(' '),
    ensures
        parse_line(
            ix as int,
            joined(
                seq![if vertical { seq!['V'] } else { seq!['H'] }, decimal(n as nat)] + tags,
                ' ',
            ),
        ) == Ok::<PicModel, ReadError>(
            PicModel {
                tags: tags.to_set(),
                id: ix,
                source: if vertical {
                    PicType::V(ix)
                } else {
                    PicType::H(ix)
                },
            },
        ),
{
    let k: Seq<char> = if vertical { seq!['V'] } else { seq!['H'] };
    let d = decimal(n as nat);
    let p = seq![k, d] + tags;
    lemma_decimal(n as nat);
    lemma_parse_usize_decimal(n);
    assert forall|i: int| 0 <= i < p.len() implies !(#[trigger] p[i]).contains(' ') by {
        if i == 0 {
            if k.contains(' ') {
                let j = choose|j: int| 0 <= j < k.len() && k[j] == ' ';
                assert(k[0] != ' ');
            }
        } else if i == 1 {
            assert(p[1] == d);
            if d.contains(' ') {
                let j = choose|j: int| 0 <= j < d.len() && d[j] == ' ';
                assert(is_digit(d[j]));
            }
        } else {
            assert(p[i] == tags[i - 2]);
        }
    }
    lemma_split_joined(p, ' ');
    assert(p[0] == k);
    assert(p[1] == d);
    assert(p.skip(2) =~= tags);
    assert(seq!['V'] != seq!['H']) by {
        assert(seq!['V'][0] != seq!['H'][0]);
    }
}

proof fn lemma_first_nonspace(s: Seq<char>, k: int)
    requires
        0 <= k <= s.len(),
    ensures
        k <= first_nonspace(s, k) <= s.len(),
        forall|i: int| k <= i < first_nonspace(s, k) ==> is_space(#[trigger] s[i]),
        first_nonspace(s, k) < s.len() ==> !is_space(s[first_nonspace(s, k)]),
    decreases s.len() - k,
{
    if k < s.len() && is_space(s[k]) {
        lemma_first_nonspace(s, k + 1);
    }
}

proof fn lemma_end_nonspace(s: Seq<char>, k: int)
    requires
        0 <= k <= s.len(),
    ensures
        0 <= end_nonspace(s, k) <= k,
        forall|i: int| end_nonspace(s, k) <= i < k ==> is_space(#[trigger] s[i]),
        end_nonspace(s, k) > 0 ==> !is_space(s[end_nonspace(s, k) - 1]),
    decreases k,
{
    if k > 0 && is_space(s[k - 1]) {
        lemma_end_nonspace(s, k - 1);
    }
}

/// Trimming `s` keeps a stretch of `s` that neither starts nor ends with
/// white space, and drops only white space before and after it.
pub proof fn lemma_trimmed(s: Seq<char>)
    ensures
        exists|a: int, b: int|
            #![trigger s.subrange(a, b)]
            0 <= a <= b <= s.len() && trimmed(s) == s.subrange(a, b) && (forall|i: int|
                0 <= i < a ==> is_space(#[trigger] s[i])) && (forall|i: int|
                b <= i < s.len() ==> is_space(#[trigger] s[i])) && (a < b ==> !is_space(s[a]) && !is_space(
                s[b - 1],
            )),
{
    lemma_first_nonspace(s, 0);
    lemma_end_nonspace(s, s.len() as int);
    let a = first_nonspace(s, 0);
    let b = end_nonspace(s, s.len() as int);
    if a >= s.len() {
        let n = s.len() as int;
        assert(trimmed(s) =~= s.subrange(n, n));
        assert(0 <= n <= n <= s.len() && trimmed(s) == s.subrange(n, n) && (forall|i: int|
            0 <= i < n ==> is_space(#[trigger] s[i])) && (forall|i: int|
            n <= i < s.len() ==> is_space(#[trigger] s[i])));
    } else {
        if b <= a {
            assert(is_space(s[a]));
        }
        assert(0 <= a <= b <= s.len() && trimmed(s) == s.subrange(a, b));
    }
}

/// `first_of` finds the first `c` at or after `k`.
proof fn lemma_first_of_at(s: Seq<char>, c: char, k: int, m: int)
    requires
        0 <= k <= m < s.len(),
        s[m] == c,
        forall|i: int| k <= i < m ==> #[trigger] s[i] != c,
    ensures
        first_of(s, c, k) == m,
    decreases m - k,
{
    if k < m {
        lemma_first_of_at(s, c, k + 1, m);
    }
}

/// A photo list whose first line is the decimal numeral of any `usize` is
/// read as the photos of its other lines: such a header is always accepted.
pub proof fn lemma_header_accepted(n: usize, body: Seq<char>)
    ensures
        parse_text(decimal(n as nat) + seq!['\n'] + body) == parse_lines(
            lines_of(body),
            lines_of(body).len() as int,
        ),
{
    let d = decimal(n as nat);
    let text = d + seq!['\n'] + body;
    lemma_decimal(n as nat);
    lemma_parse_usize_decimal(n);
    let m = d.len() as int;
    assert(text[m] == '\n');
    assert forall|i: int| 0 <= i < m implies #[trigger] text[i] != '\n' by {
        assert(text[i] == d[i]);
        assert(is_digit(d[i]));
    }
    lemma_first_of_at(text, '\n', 0, m);
    assert(newline_at(text) == m);
    let h = header_of(text);
    assert(h =~= d.push('\n'));
    assert(body_of(text) =~= body);
    assert(h[0] == d[0]);
    assert(is_digit(d[0]));
    assert(first_nonspace(h, 0) == 0);
    assert(h[m] == '\n');
    assert(h[m - 1] == d[m - 1]);
    assert(is_digit(d[m - 1]));
    assert(end_nonspace(h, m) == m);
    assert(end_nonspace(h, m + 1) == m);
    assert(trimmed(h) =~= d);
}

proof fn lemma_digits_prefix(s: Seq<char>, k: int)
    requires
        0 <= k <= s.len(),
        forall|i: int| 0 <= i < s.len() ==> is_digit(#[trigger] s[i]),
    ensures
        digits_value(s.take(k)) <= digits_value(s),
    decreases s.len(),
{
    if k < s.len() {
        lemma_digits_prefix(s.drop_last(), k);
        assert(s.drop_last().take(k) =~= s.take(k));
    } else {
        assert(s.take(k) =~= s);
    }
}

// ---------------------------------------------------------------------------
// Reading.
/// The characters of `text`, in order.
fn chars_of(text: &str) -> (r: Vec<char>)
    ensures
        r@ == text@,
{
    let mut v: Vec<char> = Vec::new();
    for c in it: text.chars()
        invariant
            it.seq() == text@,
            v@.len() == it.index(),
            forall|i: int| 0 <= i < v@.len() ==> v@[i] == it.seq()[i],
    {
        v.push(c);
    }
    assert(v@ =~= text@);
    v
}

/// `String::from_iter` on characters (`String: FromIterator<char>`): the
/// string of the characters of `cs`, in order.
#[verifier::external_body]
fn string_of(cs: Vec<char>) -> (r: String)
    ensures
        r@ == cs@,
{
    String::from_iter(cs)
}

/// The characters `cs[lo..hi]`, in order.
fn chars_between(cs: &Vec<char>, lo: usize, hi: usize) -> (r: Vec<char>)
    requires
        lo <= hi <= cs@.len(),
    ensures
        r@ == cs@.subrange(lo as int, hi as int),
{
    let mut r: Vec<char> = Vec::new();
    let mut k: usize = lo;
    while k < hi
        invariant
            lo <= k <= hi,
            hi <= cs@.len(),
            r@ == cs@.subrange(lo as int, k as int),
        decreases hi - k,
    {
        r.push(cs[k]);
        assert(cs@.subrange(lo as int, k + 1) =~= cs@.subrange(lo as int, k as int).push(cs@[k as int]));
        k = k + 1;
    }
    r
}

/// Whether `c` is white space.
fn is_space_char(c: char) -> (r: bool)
    ensures
        r == is_space(c),
{
    let u = c as u32;
    (9 <= u && u <= 13) || u == 32 || u == 0x85 || u == 0xA0 || u == 0x1680 || (0x2000 <= u && u
        <= 0x200A) || u == 0x2028 || u == 0x2029 || u == 0x202F || u == 0x205F || u == 0x3000
}

/// The pieces of `cs[lo..hi]` between the occurrences of `sep`, as ranges.
fn split_ranges(cs: &Vec<char>, lo: usize, hi: usize, sep: char) -> (r: Vec<(usize, usize)>)
    requires
        lo <= hi <= cs@.len(),
    ensures
        r@.len() == split_on(cs@.subrange(lo as int, hi as int), sep).len(),
        forall|k: int|
            0 <= k < r@.len() ==> lo <= (#[trigger] r@[k]).0 <= r@[k].1 <= hi && cs@.subrange(
                r@[k].0 as int,
                r@[k].1 as int,
            ) == split_on(cs@.subrange(lo as int, hi as int), sep)[k],
{
    let mut r: Vec<(usize, usize)> = Vec::new();
    let mut start = lo;
    let mut i = lo;
    assert(cs@.subrange(lo as int, lo as int) =~= Seq::<char>::empty());
    while i < hi
        invariant
            lo <= start <= i <= hi <= cs@.len(),
            split_on(cs@.subrange(lo as int, i as int), sep).len() == r@.len() + 1,
            forall|k: int|
                0 <= k < r@.len() ==> lo <= (#[trigger] r@[k]).0 <= r@[k].1 <= i && cs@.subrange(
                    r@[k].0 as int,
                    r@[k].1 as int,
                ) == split_on(cs@.subrange(lo as int, i as int), sep)[k],
            split_on(cs@.subrange(lo as int, i as int), sep).last() == cs@.subrange(start as int, i as int),
        decreases hi - i,
    {
        let ghost old_p = split_on(cs@.subrange(lo as int, i as int), sep);
        assert(cs@.subrange(lo as int, i + 1).drop_last() =~= cs@.subrange(lo as int, i as int));
        assert(cs@.subrange(lo as int, i + 1).last() == cs@[i as int]);
        if cs[i] == sep {
            r.push((start, i));
            start = i + 1;
            proof {
                let new_p = split_on(cs@.subrange(lo as int, i + 1), sep);
                assert(new_p == old_p.push(Seq::<char>::empty()));
                assert(cs@.subrange(start as int, i + 1) =~= Seq::<char>::empty());
            }
        } else {
            proof {
                let new_p = split_on(cs@.subrange(lo as int, i + 1), sep);
                assert(new_p == old_p.update(old_p.len() - 1, old_p.last().push(cs@[i as int])));
                assert(cs@.subrange(start as int, i + 1) =~= cs@.subrange(start as int, i as int).push(
                    cs@[i as int],
                ));
            }
        }
        i = i + 1;
    }
    r.push((start, hi));
    r
}

/// The range of `cs[lo..hi]` without its leading and trailing white space.
fn trim_range(cs: &Vec<char>, lo: usize, hi: usize) -> (r: (usize, usize))
    requires
        lo <= hi <= cs@.len(),
    ensures
        lo <= r.0 <= r.1 <= hi,
        cs@.subrange(r.0 as int, r.1 as int) == trimmed(cs@.subrange(lo as int, hi as int)),
{
    let ghost s = cs@.subrange(lo as int, hi as int);
    let mut a = lo;
    while a < hi && is_space_char(cs[a])
        invariant
            lo <= a <= hi <= cs@.len(),
            s == cs@.subrange(lo as int, hi as int),
            first_nonspace(s, 0) == first_nonspace(s, a - lo),
        decreases hi - a,
    {
        a = a + 1;
    }
    if a == hi {
        assert(cs@.subrange(hi as int, hi as int) =~= trimmed(s));
        return (hi, hi);
    }
    assert(first_nonspace(s, 0) == a - lo);
    let mut b = hi;
    while b > a && is_space_char(cs[b - 1])
        invariant
            lo <= a < b <= hi <= cs@.len(),
            !is_space(cs@[a as int]),
            s == cs@.subrange(lo as int, hi as int),
            end_nonspace(s, s.len() as int) == end_nonspace(s, b - lo),
        decreases b - a,
    {
        b = b - 1;
    }
    assert(s[b - lo - 1] == cs@[b - 1]);
    assert(end_nonspace(s, s.len() as int) == b - lo);
    assert(cs@.subrange(a as int, b as int) =~= s.subrange(a - lo, b - lo));
    (a, b)
}

/// `usize::from_str` on `cs[lo..hi]`.
fn parse_usize_range(cs: &Vec<char>, lo: usize, hi: usize) -> (r: Option<usize>)
    requires
        lo <= hi <= cs@.len(),
    ensures
        r == parse_usize(cs@.subrange(lo as int, hi as int)),
{
    let ghost s = cs@.subrange(lo as int, hi as int);
    if lo == hi {
        return None;
    }
    let mut k = lo;
    if cs[lo] == '+' {
        k = lo + 1;
    }
    let ghost body = cs@.subrange(k as int, hi as int);
    assert(body =~= unsigned_body(s));
    if k == hi {
        return None;
    }
    let k0 = k;
    let mut value: usize = 0;
    assert(cs@.subrange(k0 as int, k0 as int) =~= Seq::<char>::empty());
    while k < hi
        invariant
            lo <= k0 <= k <= hi <= cs@.len(),
            k0 < hi,
            s == cs@.subrange(lo as int, hi as int),
            body == cs@.subrange(k0 as int, hi as int),
            body == unsigned_body(s),
            forall|i: int| k0 <= i < k ==> is_digit(#[trigger] cs@[i]),
            value == digits_value(cs@.subrange(k0 as int, k as int)),
        decreases hi - k,
    {
        let u = cs[k] as u32;
        if !(48 <= u && u <= 57) {
            assert(body[k - k0] == cs@[k as int]);
            assert(!is_digit(body[k - k0]));
            assert(!all_digits(body));
            return None;
        }
        let d = (u - 48) as usize;
        assert(cs@.subrange(k0 as int, k + 1).drop_last() =~= cs@.subrange(k0 as int, k as int));
        if value > (usize::MAX - d) / 10 {
            proof {
                assert(value * 10 + d > usize::MAX) by (nonlinear_arith)
                    requires
                        value > (usize::MAX - d) / 10,
                        d <= 9,
                ;
                let pre = cs@.subrange(k0 as int, k + 1);
                assert(pre.last() == cs@[k as int]);
                assert(digits_value(pre) == value * 10 + d);
                if all_digits(body) {
                    lemma_digits_prefix(body, k + 1 - k0);
                    assert(body.take(k + 1 - k0) =~= pre);
                    assert(digits_value(body) > usize::MAX);
                }
            }
            return None;
        }
        proof {
            assert(value * 10 + d <= usize::MAX) by (nonlinear_arith)
                requires
                    value <= (usize::MAX - d) / 10,
                    d <= 9,
            ;
        }
        value = value * 10 + d;
        k = k + 1;
    }
    assert(cs@.subrange(k0 as int, hi as int) =~= body);
    Some(value)
}

/// The photo that line `ix`, `cs[lo..hi]`, describes.
fn parse_line_range(cs: &Vec<char>, ix: usize, lo: usize, hi: usize) -> (r: Result<Pic, ReadError>)
    requires
        lo <= hi <= cs@.len(),
    ensures
        match r {
            Ok(p) => parse_line(ix as int, cs@.subrange(lo as int, hi as int)) == Ok::<PicModel, ReadError>(p@),
            Err(e) => parse_line(ix as int, cs@.subrange(lo as int, hi as int)) == Err::<PicModel, ReadError>(e),
        },
{
    let ghost line = cs@.subrange(lo as int, hi as int);
    let ghost toks = split_on(line, ' ');
    let parts = split_ranges(cs, lo, hi, ' ');
    if parts.len() < 2 {
        return Err(ReadError::MissingTagCount(ix));
    }
    let no_tags = parse_usize_range(cs, parts[1].0, parts[1].1);
    if no_tags.is_none() {
        return Err(ReadError::BadTagCount(ix));
    }
    let mut tags = Tags::new();
    let n = parts.len();
    let mut t: usize = 2;
    assert(toks.skip(2).take(0).to_set() =~= Set::<Seq<char>>::empty());
    while t < n
        invariant
            2 <= t <= n,
            n == parts@.len(),
            n == toks.len(),
            toks == split_on(cs@.subrange(lo as int, hi as int), ' '),
            forall|k: int|
                0 <= k < parts@.len() ==> lo <= (#[trigger] parts@[k]).0 <= parts@[k].1 <= hi && cs@.subrange(
                    parts@[k].0 as int,
                    parts@[k].1 as int,
                ) == toks[k],
            hi <= cs@.len(),
            tags@ == toks.skip(2).take(t - 2).to_set(),
        decreases n - t,
    {
        let tag = string_of(chars_between(cs, parts[t].0, parts[t].1));
        tags.insert(tag);
        assert(toks.skip(2).take(t + 1 - 2) =~= toks.skip(2).take(t - 2).push(toks[t as int]));
        t = t + 1;
    }
    assert(toks.skip(2).take(n - 2) =~= toks.skip(2));
    let (k0, k1) = parts[0];
    let kind_h = k1 > k0 && k1 - k0 == 1 && cs[k0] == 'H';
    let kind_v = k1 > k0 && k1 - k0 == 1 && cs[k0] == 'V';
    proof {
        assert(toks[0] == cs@.subrange(k0 as int, k1 as int));
        if kind_h {
            assert(toks[0] =~= seq!['H']);
        }
        if kind_v {
            assert(toks[0] =~= seq!['V']);
        }
        if toks[0] == seq!['H'] || toks[0] == seq!['V'] {
            assert(toks[0].len() == 1);
            assert(toks[0][0] == cs@[k0 as int]);
        }
    }
    if kind_h {
        Ok(Pic { tags, id: ix, source: PicType::H(ix) })
    } else if kind_v {
        Ok(Pic { tags, id: ix, source: PicType::V(ix) })
    } else {
        Err(ReadError::UnknownKind(ix))
    }
}

/// The photos of a photo list: a first line with their number, then for each
/// photo a line with "H" or "V", its number of tags, and its tags, separated
/// by single spaces. Photo `i` gets id `i`.
pub fn read_pics(text: &str) -> (r: Result<Pics, ReadError>)
    ensures
        match r {
            Ok(pics) => parse_text(text@) == Ok::<Seq<PicModel>, ReadError>(models(pics@)),
            Err(e) => parse_text(text@) == Err::<Seq<PicModel>, ReadError>(e),
        },
{
    let cs = chars_of(text);
    let n = cs.len();
    let ghost s = cs@;
    let mut nl: usize = 0;
    while nl < n && cs[nl] != '\n'
        invariant
            nl <= n,
            n == cs@.len(),
            s == cs@,
            first_of(s, '\n', 0) == first_of(s, '\n', nl as int),
        decreases n - nl,
    {
        nl = nl + 1;
    }
    let header_hi = if nl < n {
        nl + 1
    } else {
        n
    };
    proof {
        assert(newline_at(s) == nl);
        assert(cs@.subrange(0, header_hi as int) =~= header_of(s));
    }
    let (h0, h1) = trim_range(&cs, 0, header_hi);
    if parse_usize_range(&cs, h0, h1).is_none() {
        return Err(ReadError::BadHeader);
    }
    let body_lo = header_hi;
    proof {
        assert(cs@.subrange(body_lo as int, n as int) =~= body_of(s));
    }
    let ghost body = body_of(s);
    let ghost pieces = split_on(body, '\n');
    let ghost lines = lines_of(body);
    let parts = split_ranges(&cs, body_lo, n, '\n');
    proof {
        lemma_split_nonempty(body, '\n');
    }
    let last = parts.len() - 1;
    let count = if parts[last].0 == parts[last].1 {
        last
    } else {
        parts.len()
    };
    proof {
        assert(cs@.subrange(parts@[last as int].0 as int, parts@[last as int].1 as int) == pieces.last());
        assert(count == lines.len());
    }
    let mut pics: Pics = Vec::new();
    let mut ix: usize = 0;
    assert(models(pics@) =~= Seq::<PicModel>::empty());
    while ix < count
        invariant
            ix <= count,
            count == lines.len(),
            count <= parts@.len(),
            parts@.len() == pieces.len(),
            n == cs@.len(),
            s == cs@,
            s == text@,
            pieces == split_on(body, '\n'),
            lines == lines_of(body),
            body == cs@.subrange(body_lo as int, n as int),
            body == body_of(s),
            parse_usize(trimmed(header_of(s))) is Some,
            forall|k: int|
                0 <= k < parts@.len() ==> body_lo <= (#[trigger] parts@[k]).0 <= parts@[k].1 <= n && cs@.subrange(
                    parts@[k].0 as int,
                    parts@[k].1 as int,
                ) == pieces[k],
            parse_lines(lines, ix as int) == Ok::<Seq<PicModel>, ReadError>(models(pics@)),
        decreases count - ix,
    {
        let (a, b0) = parts[ix];
        let mut b = b0;
        if ix < parts.len() - 1 && b > a && cs[b - 1] == '\r' {
            b = b - 1;
        }
        proof {
            assert(cs@.subrange(a as int, b0 as int) == pieces[ix as int]);
            if ix < parts.len() - 1 && b0 > a && cs@[b0 - 1] == '\r' {
                assert(cs@.subrange(a as int, b as int) =~= pieces[ix as int].drop_last());
            }
            assert(cs@.subrange(a as int, b as int) == lines[ix as int]);
        }
        match parse_line_range(&cs, ix, a, b) {
            Ok(p) => {
                let ghost before = models(pics@);
                pics.push(p);
                assert(models(pics@) =~= before.push(p@));
            },
            Err(e) => {
                proof {
                    assert(parse_lines(lines, ix as int + 1) == Err::<Seq<PicModel>, ReadError>(e));
                    lemma_parse_lines_err(lines, ix as int + 1, lines.len() as int);
                    assert(parse_usize(trimmed(header_of(s))) is Some);
                    assert(parse_text(s) == parse_lines(lines, lines.len() as int));
                    assert(s == text@);
                }
                return Err(e);
            },
        }
        ix = ix + 1;
    }
    Ok(pics)
}

/// Once a line is bad, so is every longer prefix.
proof fn lemma_parse_lines_err(lines: Seq<Seq<char>>, k: int, m: int)
    requires
        0 < k <= m,
        parse_lines(lines, k) is Err,
    ensures
        parse_lines(lines, m) == parse_lines(lines, k),
    decreases m - k,
{
    if m > k {
        lemma_parse_lines_err(lines, k, m - 1);
    }
}

} // verus!
