//! Character-level text operations: finding and splitting on separators,
//! white space, and the conversions between `str`, `String` and character
//! vectors.  The spec functions describe `str::split`, `str::trim`,
//! `str::split_whitespace` and friends on sequences of characters.

use vstd::prelude::*;

verus! {

// ---------------------------------------------------------------------
// Specification
// ---------------------------------------------------------------------

/// `p` occurs in `s` starting at index `i`.
pub open spec fn matches_at(s: Seq<char>, p: Seq<char>, i: int) -> bool {
    0 <= i && i + p.len() <= s.len() && s.subrange(i, i + p.len()) == p
}

/// The first index `>= i` at which `p` occurs in `s`.
pub open spec fn find_from(s: Seq<char>, p: Seq<char>, i: int) -> Option<int>
    decreases s.len() - i,
{
    if i < 0 || i + p.len() > s.len() {
        None
    } else if matches_at(s, p, i) {
        Some(i)
    } else if i >= s.len() {
        None
    } else {
        find_from(s, p, i + 1)
    }
}

/// The pieces of `s[start..]` between the occurrences of the (non-empty)
/// separator `p`, matched left to right without overlap, as `str::split`
/// yields them.
pub open spec fn pieces_from(s: Seq<char>, p: Seq<char>, start: int) -> Seq<Seq<char>>
    decreases s.len() - start,
{
    if p.len() == 0 || start < 0 || start > s.len() {
        seq![s.subrange(start, s.len() as int)]
    } else {
        match find_from(s, p, start) {
            Some(i) => {
                proof {
                    lemma_find_from_bounds(s, p, start);
                }
                seq![s.subrange(start, i)] + pieces_from(s, p, i + p.len())
            },
            None => seq![s.subrange(start, s.len() as int)],
        }
    }
}

/// What `s.split(p)` yields, for a non-empty separator `p`.
pub open spec fn pieces(s: Seq<char>, p: Seq<char>) -> Seq<Seq<char>> {
    pieces_from(s, p, 0)
}

/// `s.split(p).nth(n)`.
pub open spec fn nth_piece(s: Seq<char>, p: Seq<char>, n: int) -> Option<Seq<char>> {
    if 0 <= n < pieces(s, p).len() {
        Some(pieces(s, p)[n])
    } else {
        None
    }
}

/// `s.split(p).next().unwrap()`: what precedes the first occurrence of `p`,
/// or all of `s`.
pub open spec fn first_piece(s: Seq<char>, p: Seq<char>) -> Seq<char> {
    pieces(s, p)[0]
}

/// `s.split(p).last().unwrap()`: what follows the last occurrence of `p`.
pub open spec fn last_piece(s: Seq<char>, p: Seq<char>) -> Seq<char> {
    pieces(s, p).last()
}

/// `s.split(open).nth(1).and_then(|x| x.split(close).next())`: the text
/// after the first `open` up to the next `close` (or the next `open`).
pub open spec fn between(s: Seq<char>, open: Seq<char>, close: Seq<char>) -> Option<Seq<char>> {
    match nth_piece(s, open, 1) {
        Some(x) => Some(first_piece(x, close)),
        None => None,
    }
}

/// `s.split_once(c)`.
pub open spec fn split_once(s: Seq<char>, c: char) -> Option<(Seq<char>, Seq<char>)> {
    match find_from(s, seq![c], 0) {
        Some(i) => Some((s.take(i), s.skip(i + 1))),
        None => None,
    }
}

/// `char::is_whitespace`: the characters with the Unicode `White_Space`
/// property.
pub open spec fn is_ws(c: char) -> bool {
    ||| '\u{9}' <= c <= '\u{d}'
    ||| c == ' '
    ||| c == '\u{85}'
    ||| c == '\u{a0}'
    ||| c == '\u{1680}'
    ||| '\u{2000}' <= c <= '\u{200a}'
    ||| c == '\u{2028}'
    ||| c == '\u{2029}'
    ||| c == '\u{202f}'
    ||| c == '\u{205f}'
    ||| c == '\u{3000}'
}

/// `s.trim_start()`.
pub open spec fn trim_start(s: Seq<char>) -> Seq<char>
    decreases s.len(),
{
    if s.len() > 0 && is_ws(s[0]) {
        trim_start(s.drop_first())
    } else {
        s
    }
}

/// `s.trim_end()`.
pub open spec fn trim_end(s: Seq<char>) -> Seq<char>
    decreases s.len(),
{
    if s.len() > 0 && is_ws(s.last()) {
        trim_end(s.drop_last())
    } else {
        s
    }
}

/// `s.trim()`.
pub open spec fn trim(s: Seq<char>) -> Seq<char> {
    trim_end(trim_start(s))
}

/// The longest prefix of `s` without white space.
pub open spec fn leading_word(s: Seq<char>) -> Seq<char>
    decreases s.len(),
{
    if s.len() == 0 || is_ws(s[0]) {
        Seq::empty()
    } else {
        seq![s[0]] + leading_word(s.drop_first())
    }
}

/// `s.split_whitespace().next()`.
pub open spec fn first_word(s: Seq<char>) -> Option<Seq<char>> {
    if trim_start(s).len() == 0 {
        None
    } else {
        Some(leading_word(trim_start(s)))
    }
}

/// `s` without any occurrence of `c`: `s.replace(c, "")`.
pub open spec fn without_char(s: Seq<char>, c: char) -> Seq<char>
    decreases s.len(),
{
    if s.len() == 0 {
        s
    } else if s.last() == c {
        without_char(s.drop_last(), c)
    } else {
        without_char(s.drop_last(), c).push(s.last())
    }
}

/// The characters of each vector in `r`.
pub open spec fn texts(r: Seq<Vec<char>>) -> Seq<Seq<char>> {
    r.map_values(|v: Vec<char>| v@)
}

/// `s.starts_with(p)`.
pub open spec fn starts_with(s: Seq<char>, p: Seq<char>) -> bool {
    p.len() <= s.len() && s.take(p.len() as int) == p
}

/// `s.ends_with(p)`.
pub open spec fn ends_with(s: Seq<char>, p: Seq<char>) -> bool {
    p.len() <= s.len() && s.skip(s.len() - p.len()) == p
}

// ---------------------------------------------------------------------
// Lemmas
// ---------------------------------------------------------------------

/// A match found from `i` lies at or after `i` and inside `s`.
pub proof fn lemma_find_from_bounds(s: Seq<char>, p: Seq<char>, i: int)
    requires
        0 <= i,
    ensures
        find_from(s, p, i) matches Some(j) ==> i <= j && matches_at(s, p, j),
        find_from(s, p, i) matches Some(j) ==> forall|k: int| i <= k < j ==> !matches_at(s, p, k),
        find_from(s, p, i) is None ==> forall|k: int| i <= k ==> !matches_at(s, p, k),
    decreases s.len() - i,
{
    if i + p.len() > s.len() {
    } else if matches_at(s, p, i) {
    } else if i >= s.len() {
        assert(p.len() == 0);
        assert(s.subrange(i, i + p.len()) =~= p);
    } else {
        lemma_find_from_bounds(s, p, i + 1);
    }
}

/// `split` always yields at least one piece.
pub proof fn lemma_pieces_nonempty(s: Seq<char>, p: Seq<char>, start: int)
    ensures
        pieces_from(s, p, start).len() >= 1,
{
}

/// Where `p` occurs at `k`, the characters of `s` from `k` on are those of
/// `p`.
pub proof fn lemma_match_chars(s: Seq<char>, p: Seq<char>, k: int)
    requires
        matches_at(s, p, k),
    ensures
        forall|i: int| k <= i < k + p.len() ==> #[trigger] s[i] == p[i - k],
{
    assert forall|i: int| k <= i < k + p.len() implies #[trigger] s[i] == p[i - k] by {
        assert(s.subrange(k, k + p.len())[i - k] == p[i - k]);
    }
}

/// The first occurrence of `p` at or after `i` is the search's answer.
pub proof fn lemma_find_first(s: Seq<char>, p: Seq<char>, i: int, j: int)
    requires
        0 <= i <= j,
        matches_at(s, p, j),
        forall|k: int| i <= k < j ==> !matches_at(s, p, k),
    ensures
        find_from(s, p, i) == Some(j),
{
    lemma_find_from_bounds(s, p, i);
}

/// Where `p` does not occur at or after `i`, the search finds nothing.
pub proof fn lemma_find_none(s: Seq<char>, p: Seq<char>, i: int)
    requires
        0 <= i,
        forall|k: int| i <= k ==> !matches_at(s, p, k),
    ensures
        find_from(s, p, i) is None,
{
    lemma_find_from_bounds(s, p, i);
}

/// The end of the piece that starts at `start`: the next occurrence of
/// `p`, or the end of `s`.
pub open spec fn piece_end(s: Seq<char>, p: Seq<char>, start: int) -> int {
    match find_from(s, p, start) {
        Some(j) => j,
        None => s.len() as int,
    }
}

/// Splitting `x + y` from inside `y` splits `y` alone.
pub proof fn lemma_pieces_shift(x: Seq<char>, y: Seq<char>, p: Seq<char>, i: int)
    requires
        p.len() > 0,
        0 <= i <= y.len(),
    ensures
        pieces_from(x + y, p, x.len() + i) == pieces_from(y, p, i),
    decreases y.len() - i,
{
    let d = x + y;
    let o = x.len() as int;
    assert forall|k: int| 0 <= k implies matches_at(d, p, o + k) == matches_at(y, p, k) by {
        if o + k + p.len() <= d.len() {
            assert(d.subrange(o + k, o + k + p.len()) =~= y.subrange(k, k + p.len()));
        }
    }
    lemma_find_from_bounds(y, p, i);
    lemma_find_from_bounds(d, p, o + i);
    match find_from(y, p, i) {
        Some(j) => {
            assert(!matches_at(d, p, o + j) ==> !matches_at(y, p, j));
            assert forall|k: int| o + i <= k < o + j implies !matches_at(d, p, k) by {
                assert(matches_at(d, p, o + (k - o)) == matches_at(y, p, k - o));
            }
            lemma_find_first(d, p, o + i, o + j);
            assert(d.subrange(o + i, o + j) =~= y.subrange(i, j));
            lemma_pieces_shift(x, y, p, j + p.len());
        },
        None => {
            assert forall|k: int| o + i <= k implies !matches_at(d, p, k) by {
                assert(matches_at(d, p, o + (k - o)) == matches_at(y, p, k - o));
            }
            lemma_find_none(d, p, o + i);
            assert(d.subrange(o + i, d.len() as int) =~= y.subrange(i, y.len() as int));
        },
    }
}

/// Splitting `a + p + b` on the one-character separator `p` gives the
/// pieces of `a` followed by those of `b`.
pub proof fn lemma_pieces_join(a: Seq<char>, b: Seq<char>, p: Seq<char>)
    requires
        p.len() == 1,
    ensures
        pieces(a + p + b, p) == pieces(a, p) + pieces(b, p),
{
    lemma_pieces_join_from(a, b, p, 0);
    assert(a + p + b =~= (a + p) + b);
    lemma_pieces_shift(a + p, b, p, 0);
}

/// Splitting `a + p + b` from index `i` of `a`.
proof fn lemma_pieces_join_from(a: Seq<char>, b: Seq<char>, p: Seq<char>, i: int)
    requires
        p.len() == 1,
        0 <= i <= a.len(),
    ensures
        pieces_from(a + p + b, p, i) == pieces_from(a, p, i) + pieces_from(a + p + b, p, a.len() + 1int),
    decreases a.len() - i,
{
    let d = a + p + b;
    assert forall|k: int| 0 <= k < a.len() implies matches_at(d, p, k) == matches_at(a, p, k) by {
        assert(d.subrange(k, k + 1) =~= a.subrange(k, k + 1));
    }
    assert(d.subrange(a.len() as int, a.len() + 1int) =~= p);
    lemma_find_from_bounds(a, p, i);
    lemma_find_from_bounds(d, p, i);
    match find_from(a, p, i) {
        Some(j) => {
            assert(j < a.len());
            lemma_find_first(d, p, i, j);
            assert(d.subrange(i, j) =~= a.subrange(i, j));
            lemma_pieces_join_from(a, b, p, j + 1);
            assert(pieces_from(a, p, i) == seq![a.subrange(i, j)] + pieces_from(a, p, j + 1));
            assert(pieces_from(d, p, i) =~= pieces_from(a, p, i) + pieces_from(d, p, a.len() + 1int));
        },
        None => {
            assert(forall|k: int| i <= k < a.len() ==> !matches_at(a, p, k));
            lemma_find_first(d, p, i, a.len() as int);
            assert(d.subrange(i, a.len() as int) =~= a.subrange(i, a.len() as int));
            assert(pieces_from(d, p, i) =~= pieces_from(a, p, i) + pieces_from(d, p, a.len() + 1int));
        },
    }
}

/// The piece that starts at `start` runs up to the next occurrence of `p`.
pub proof fn lemma_piece_at(s: Seq<char>, p: Seq<char>, start: int)
    requires
        p.len() > 0,
        0 <= start <= s.len(),
    ensures
        start <= piece_end(s, p, start) <= s.len(),
        pieces_from(s, p, start)[0] == s.subrange(start, piece_end(s, p, start)),
{
    lemma_find_from_bounds(s, p, start);
}

} // verus!

verus! {

// ---------------------------------------------------------------------
// Executable operations
// ---------------------------------------------------------------------

/// Appends `c` to `s` (`String::push`).
#[verifier::external_body]
fn push_char(s: &mut String, c: char)
    ensures
        final(s)@ == old(s)@.push(c),
{
    s.push(c);
}

/// The characters of `s`, in order.
pub fn chars_of(s: &str) -> (r: Vec<char>)
    ensures
        r@ == s@,
{
    let mut r: Vec<char> = Vec::new();
    for c in it: s.chars()
        invariant
            r@ == it.seq().take(it.index() as int),
    {
        r.push(c);
    }
    r
}

/// The string made of the characters `v`.
pub fn string_of(v: &Vec<char>) -> (r: String)
    ensures
        r@ == v@,
{
    let mut r = String::new();
    for i in 0..v.len()
        invariant
            r@ == v@.take(i as int),
    {
        push_char(&mut r, v[i]);
        assert(v@.take(i + 1) =~= v@.take(i as int).push(v@[i as int]));
    }
    assert(v@.take(v.len() as int) =~= v@);
    r
}

/// `s[a..b]` as a vector of its own.
pub fn slice(s: &Vec<char>, a: usize, b: usize) -> (r: Vec<char>)
    requires
        a <= b <= s.len(),
    ensures
        r@ == s@.subrange(a as int, b as int),
{
    let mut r: Vec<char> = Vec::new();
    let mut i: usize = a;
    while i < b
        invariant
            a <= i <= b <= s.len(),
            r@ == s@.subrange(a as int, i as int),
        decreases b - i,
    {
        r.push(s[i]);
        assert(s@.subrange(a as int, i + 1) =~= s@.subrange(a as int, i as int).push(s@[i as int]));
        i = i + 1;
    }
    r
}

/// Whether `a` and `b` hold the same characters.
pub fn same_chars(a: &Vec<char>, b: &Vec<char>) -> (r: bool)
    ensures
        r == (a@ == b@),
{
    if a.len() != b.len() {
        return false;
    }
    let mut i: usize = 0;
    while i < a.len()
        invariant
            a.len() == b.len(),
            i <= a.len(),
            a@.take(i as int) == b@.take(i as int),
        decreases a.len() - i,
    {
        if a[i] != b[i] {
            assert(a@[i as int] != b@[i as int]);
            return false;
        }
        assert(a@.take(i + 1) =~= a@.take(i as int).push(a@[i as int]));
        assert(b@.take(i + 1) =~= b@.take(i as int).push(b@[i as int]));
        i = i + 1;
    }
    assert(a@ =~= a@.take(i as int));
    assert(b@ =~= b@.take(i as int));
    true
}

/// Whether `p` occurs in `s` at index `i`.
fn matches_here(s: &Vec<char>, p: &Vec<char>, i: usize) -> (r: bool)
    requires
        i + p.len() <= s.len(),
    ensures
        r == matches_at(s@, p@, i as int),
{
    let mut k: usize = 0;
    while k < p.len()
        invariant
            i + p.len() <= s.len(),
            k <= p.len(),
            s@.subrange(i as int, i + k) == p@.take(k as int),
        decreases p.len() - k,
    {
        if s[i + k] != p[k] {
            assert(s@.subrange(i as int, i + p.len())[k as int] != p@[k as int]);
            return false;
        }
        assert(s@.subrange(i as int, i + k + 1) =~= s@.subrange(i as int, i + k).push(s@[i + k]));
        assert(p@.take(k + 1) =~= p@.take(k as int).push(p@[k as int]));
        k = k + 1;
    }
    assert(p@.take(k as int) =~= p@);
    true
}

/// The first index `>= start` at which `p` occurs in `s`.
pub fn find(s: &Vec<char>, p: &Vec<char>, start: usize) -> (r: Option<usize>)
    ensures
        r matches Some(i) ==> find_from(s@, p@, start as int) == Some(i as int),
        r is None ==> find_from(s@, p@, start as int) is None,
{
    if p.len() > s.len() || start > s.len() - p.len() {
        return None;
    }
    let mut i: usize = start;
    while i <= s.len() - p.len()
        invariant
            p.len() <= s.len(),
            start <= i,
            find_from(s@, p@, start as int) == find_from(s@, p@, i as int),
        decreases s.len() - i,
    {
        if matches_here(s, p, i) {
            return Some(i);
        }
        if p.len() == 0 {
            assert(s@.subrange(i as int, i as int) =~= p@);
        }
        i = i + 1;
    }
    None
}

/// The pieces of `s` between the occurrences of `p`: `s.split(p)` (where
/// `p` is empty, all of `s`).
pub fn split_all(s: &Vec<char>, p: &Vec<char>) -> (r: Vec<Vec<char>>)
    ensures
        texts(r@) == pieces(s@, p@),
{
    let mut r: Vec<Vec<char>> = Vec::new();
    if p.len() == 0 {
        let whole = slice(s, 0, s.len());
        r.push(whole);
        assert(texts(r@) =~= seq![s@.subrange(0, s@.len() as int)]);
        return r;
    }
    let mut start: usize = 0;
    loop
        invariant
            p.len() > 0,
            start <= s.len(),
            pieces(s@, p@) == texts(r@) + pieces_from(s@, p@, start as int),
        decreases s.len() - start,
    {
        match find(s, p, start) {
            Some(i) => {
                proof {
                    lemma_find_from_bounds(s@, p@, start as int);
                }
                let piece = slice(s, start, i);
                let ghost before = texts(r@);
                r.push(piece);
                assert(texts(r@) =~= before.push(s@.subrange(start as int, i as int)));
                assert(pieces_from(s@, p@, start as int) == seq![s@.subrange(start as int, i as int)]
                    + pieces_from(s@, p@, i + p.len()));
                assert(before + pieces_from(s@, p@, start as int) =~= texts(r@)
                    + pieces_from(s@, p@, i + p.len()));
                start = i + p.len();
            },
            None => {
                let piece = slice(s, start, s.len());
                let ghost before = texts(r@);
                r.push(piece);
                assert(texts(r@) =~= before.push(s@.subrange(start as int, s.len() as int)));
                assert(pieces_from(s@, p@, start as int) == seq![s@.subrange(start as int, s.len() as int)]);
                assert(before + pieces_from(s@, p@, start as int) =~= texts(r@));
                return r;
            },
        }
    }
}

} // verus!

verus! {

/// `s.split(p).nth(n)`.
pub fn nth_piece_of(s: &Vec<char>, p: &Vec<char>, n: usize) -> (r: Option<Vec<char>>)
    ensures
        r matches Some(x) ==> nth_piece(s@, p@, n as int) == Some(x@),
        r is None ==> nth_piece(s@, p@, n as int) is None,
{
    let mut all = split_all(s, p);
    if n < all.len() {
        let x = all.remove(n);
        Some(x)
    } else {
        None
    }
}

/// `s.split(p).next().unwrap()`.
pub fn first_piece_of(s: &Vec<char>, p: &Vec<char>) -> (r: Vec<char>)
    ensures
        r@ == first_piece(s@, p@),
{
    let mut all = split_all(s, p);
    proof {
        lemma_pieces_nonempty(s@, p@, 0);
    }
    all.remove(0)
}

/// `s.split(p).last().unwrap()`.
pub fn last_piece_of(s: &Vec<char>, p: &Vec<char>) -> (r: Vec<char>)
    ensures
        r@ == last_piece(s@, p@),
{
    let mut all = split_all(s, p);
    proof {
        lemma_pieces_nonempty(s@, p@, 0);
    }
    let n = all.len();
    all.remove(n - 1)
}

/// `s.split(open).nth(1).and_then(|x| x.split(close).next())`.
pub fn between_of(s: &Vec<char>, open: &Vec<char>, close: &Vec<char>) -> (r: Option<Vec<char>>)
    ensures
        r matches Some(x) ==> between(s@, open@, close@) == Some(x@),
        r is None ==> between(s@, open@, close@) is None,
{
    match nth_piece_of(s, open, 1) {
        Some(x) => Some(first_piece_of(&x, close)),
        None => None,
    }
}

/// `s.split_once(c)`.
pub fn split_once_of(s: &Vec<char>, c: char) -> (r: Option<(Vec<char>, Vec<char>)>)
    ensures
        r matches Some(x) ==> split_once(s@, c) == Some((x.0@, x.1@)),
        r is None ==> split_once(s@, c) is None,
{
    let p: Vec<char> = vec![c];
    assert(p@ =~= seq![c]);
    match find(s, &p, 0) {
        Some(i) => {
            proof {
                lemma_find_from_bounds(s@, p@, 0);
                assert(matches_at(s@, p@, i as int));
                assert(p@.len() == 1);
                assert(i + 1 <= s@.len());
            }
            let n = s.len();
            let a = slice(s, 0, i);
            let b = slice(s, i + 1, n);
            assert(a@ =~= s@.take(i as int));
            assert(b@ =~= s@.skip(i + 1));
            Some((a, b))
        },
        None => None,
    }
}

/// `char::is_whitespace`.
pub fn is_ws_char(c: char) -> (r: bool)
    ensures
        r == is_ws(c),
{
    ('\u{9}' <= c && c <= '\u{d}') || c == ' ' || c == '\u{85}' || c == '\u{a0}' || c == '\u{1680}'
        || ('\u{2000}' <= c && c <= '\u{200a}') || c == '\u{2028}' || c == '\u{2029}' || c
        == '\u{202f}' || c == '\u{205f}' || c == '\u{3000}'
}

/// `s.trim_start()`.
pub fn trim_start_of(s: &Vec<char>) -> (r: Vec<char>)
    ensures
        r@ == trim_start(s@),
{
    let mut a: usize = 0;
    assert(s@.skip(0) =~= s@);
    while a < s.len() && is_ws_char(s[a])
        invariant
            a <= s.len(),
            trim_start(s@) == trim_start(s@.skip(a as int)),
        decreases s.len() - a,
    {
        assert(s@.skip(a as int).drop_first() =~= s@.skip(a + 1));
        a = a + 1;
    }
    let r = slice(s, a, s.len());
    assert(r@ =~= s@.skip(a as int));
    r
}

/// `s.trim_end()`.
pub fn trim_end_of(s: &Vec<char>) -> (r: Vec<char>)
    ensures
        r@ == trim_end(s@),
{
    let mut b: usize = s.len();
    assert(s@.take(b as int) =~= s@);
    while b > 0 && is_ws_char(s[b - 1])
        invariant
            b <= s.len(),
            trim_end(s@) == trim_end(s@.take(b as int)),
        decreases b,
    {
        assert(s@.take(b as int).drop_last() =~= s@.take(b - 1));
        b = b - 1;
    }
    let r = slice(s, 0, b);
    assert(r@ =~= s@.take(b as int));
    r
}

/// `s.trim()`.
pub fn trim_of(s: &Vec<char>) -> (r: Vec<char>)
    ensures
        r@ == trim(s@),
{
    let t = trim_start_of(s);
    trim_end_of(&t)
}

/// `s.split_whitespace().next()`.
pub fn first_word_of(s: &Vec<char>) -> (r: Option<Vec<char>>)
    ensures
        r matches Some(x) ==> first_word(s@) == Some(x@),
        r is None ==> first_word(s@) is None,
{
    let t = trim_start_of(s);
    if t.len() == 0 {
        return None;
    }
    let mut j: usize = 0;
    assert(t@.skip(0) =~= t@);
    assert(t@.take(0) + leading_word(t@) =~= leading_word(t@));
    while j < t.len() && !is_ws_char(t[j])
        invariant
            j <= t.len(),
            leading_word(t@) == t@.take(j as int) + leading_word(t@.skip(j as int)),
        decreases t.len() - j,
    {
        assert(t@.skip(j as int).drop_first() =~= t@.skip(j + 1));
        assert(t@.take(j + 1) =~= t@.take(j as int) + seq![t@[j as int]]);
        assert(t@.take(j as int) + (seq![t@[j as int]] + leading_word(t@.skip(j + 1)))
            =~= t@.take(j + 1) + leading_word(t@.skip(j + 1)));
        j = j + 1;
    }
    assert(leading_word(t@.skip(j as int)) =~= Seq::<char>::empty());
    let w = slice(&t, 0, j);
    assert(w@ =~= t@.take(j as int) + leading_word(t@.skip(j as int)));
    Some(w)
}

/// `s.replace(c, "")`.
pub fn without_char_of(s: &Vec<char>, c: char) -> (r: Vec<char>)
    ensures
        r@ == without_char(s@, c),
{
    let mut r: Vec<char> = Vec::new();
    for i in 0..s.len()
        invariant
            r@ == without_char(s@.take(i as int), c),
    {
        assert(s@.take(i + 1).drop_last() =~= s@.take(i as int));
        if s[i] != c {
            r.push(s[i]);
        }
    }
    assert(s@.take(s.len() as int) =~= s@);
    r
}

/// `s.starts_with(p)`.
pub fn starts_with_of(s: &Vec<char>, p: &Vec<char>) -> (r: bool)
    ensures
        r == starts_with(s@, p@),
{
    if p.len() > s.len() {
        return false;
    }
    let r = matches_here(s, p, 0);
    assert(s@.subrange(0, p.len() as int) =~= s@.take(p.len() as int));
    r
}

/// `s.ends_with(p)`.
pub fn ends_with_of(s: &Vec<char>, p: &Vec<char>) -> (r: bool)
    ensures
        r == ends_with(s@, p@),
{
    if p.len() > s.len() {
        return false;
    }
    let r = matches_here(s, p, s.len() - p.len());
    assert(s@.subrange(s.len() - p.len(), s.len() as int) =~= s@.skip(s.len() - p.len()));
    r
}

} // verus!
