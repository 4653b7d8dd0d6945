//! Text as sequences of characters: where a delimiter occurs in a line, and
//! the pieces that the line falls into when cut at every occurrence.

use vstd::prelude::*;

verus! {

/// `d` stands in `s` at position `i`.
pub open spec fn occurs_at(s: Seq<char>, d: Seq<char>, i: int) -> bool {
    0 <= i && i + d.len() <= s.len() && s.subrange(i, i + d.len()) == d
}

/// `i` is the position of the leftmost occurrence of `d` in `s`.
pub open spec fn first_occurrence(s: Seq<char>, d: Seq<char>, i: int) -> bool {
    occurs_at(s, d, i) && forall|j: int| 0 <= j < i ==> !occurs_at(s, d, j)
}

/// `k` is the position of the rightmost `c` in `s`.
pub open spec fn last_position(s: Seq<char>, c: char, k: int) -> bool {
    0 <= k < s.len() && s[k] == c && forall|j: int| k < j < s.len() ==> s[j] != c
}

/// What precedes the first `d` in `s`, or all of `s` where `d` does not occur.
pub open spec fn head_piece(s: Seq<char>, d: Seq<char>) -> Seq<char> {
    if exists|i: int| first_occurrence(s, d, i) {
        s.subrange(0, choose|i: int| first_occurrence(s, d, i))
    } else {
        s
    }
}

/// Piece `n` (counting from zero) of `s` cut at every non-overlapping
/// occurrence of `d`, scanning from the left; `None` where `s` has fewer
/// than `n + 1` pieces.
pub open spec fn piece(s: Seq<char>, d: Seq<char>, n: nat) -> Option<Seq<char>>
    decreases n,
{
    if n == 0 {
        Some(head_piece(s, d))
    } else if exists|i: int| first_occurrence(s, d, i) {
        let i = choose|i: int| first_occurrence(s, d, i);
        piece(s.subrange(i + d.len(), s.len() as int), d, (n - 1) as nat)
    } else {
        None
    }
}

/// A sequence has at most one leftmost occurrence of a delimiter.
pub proof fn lemma_first_occurrence_unique(s: Seq<char>, d: Seq<char>, i: int, j: int)
    requires
        first_occurrence(s, d, i),
        first_occurrence(s, d, j),
    ensures
        i == j,
{
}

/// For a one-character delimiter, an occurrence is a position holding it.
pub proof fn lemma_occurs_at_char(s: Seq<char>, c: char, i: int)
    ensures
        occurs_at(s, seq![c], i) <==> (0 <= i < s.len() && s[i] == c),
{
    if 0 <= i < s.len() && s[i] == c {
        assert(s.subrange(i, i + 1) =~= seq![c]);
    }
    if occurs_at(s, seq![c], i) {
        assert(s.subrange(i, i + 1)[0] == s[i]);
    }
}

/// A position that holds `c`, with no `c` before it, is the leftmost
/// occurrence of the one-character delimiter `c`.
pub proof fn lemma_first_char(s: Seq<char>, c: char, i: int)
    requires
        0 <= i < s.len(),
        s[i] == c,
        forall|j: int| 0 <= j < i ==> s[j] != c,
    ensures
        first_occurrence(s, seq![c], i),
{
    lemma_occurs_at_char(s, c, i);
    assert forall|j: int| 0 <= j < i implies !occurs_at(s, seq![c], j) by {
        lemma_occurs_at_char(s, c, j);
    }
}

/// A sequence without `c` has no occurrence of the delimiter `c`.
pub proof fn lemma_char_absent(s: Seq<char>, c: char)
    requires
        forall|j: int| 0 <= j < s.len() ==> s[j] != c,
    ensures
        forall|j: int| !occurs_at(s, seq![c], j),
{
    assert forall|j: int| !occurs_at(s, seq![c], j) by {
        lemma_occurs_at_char(s, c, j);
    }
}

/// Cutting at the leftmost occurrence: the first piece is what precedes it,
/// and the later pieces are those of what follows it.
pub proof fn lemma_piece_at_first(s: Seq<char>, d: Seq<char>, i: int, n: nat)
    requires
        first_occurrence(s, d, i),
    ensures
        piece(s, d, 0) == Some(s.subrange(0, i)),
        piece(s, d, n + 1) == piece(s.subrange(i + d.len(), s.len() as int), d, n),
{
    let c = choose|c: int| first_occurrence(s, d, c);
    lemma_first_occurrence_unique(s, d, c, i);
}

/// Where `d` does not occur, `s` is its one piece.
pub proof fn lemma_piece_without(s: Seq<char>, d: Seq<char>, n: nat)
    requires
        forall|j: int| !occurs_at(s, d, j),
    ensures
        piece(s, d, 0) == Some(s),
        n > 0 ==> piece(s, d, n) is None,
{
    assert(!exists|c: int| first_occurrence(s, d, c));
}

/// The characters of `s`, in order.
pub fn chars_of(s: &str) -> (v: Vec<char>)
    ensures
        v@ == s@,
{
    let mut v: Vec<char> = Vec::new();
    for c in it: s.chars()
        invariant
            it.seq() == s@,
            v@ == it.seq().subrange(0, it.index() as int),
    {
        v.push(c);
    }
    v
}

/// Whether `d` stands in `v` at position `i`.
fn matches_at(v: &Vec<char>, i: usize, d: &Vec<char>) -> (r: bool)
    requires
        i + d.len() <= v.len(),
    ensures
        r == (v@.subrange(i as int, i + d.len()) == d@),
{
    let mut j: usize = 0;
    while j < d.len()
        invariant
            i + d.len() <= v.len(),
            j <= d.len(),
            forall|k: int| 0 <= k < j ==> v@[i + k] == d@[k],
        decreases d.len() - j,
    {
        if v[i + j] != d[j] {
            assert(v@.subrange(i as int, i + d.len())[j as int] != d@[j as int]);
            return false;
        }
        j = j + 1;
    }
    assert(v@.subrange(i as int, i + d.len()) =~= d@);
    true
}

/// Where `d` first occurs in `v[lo..hi]`, as a position in `v`.
pub fn find_from(v: &Vec<char>, lo: usize, hi: usize, d: &Vec<char>) -> (r: Option<usize>)
    requires
        lo <= hi <= v.len(),
    ensures
        match r {
            Some(i) => lo <= i && first_occurrence(
                v@.subrange(lo as int, hi as int),
                d@,
                i - lo,
            ),
            None => forall|j: int| !occurs_at(v@.subrange(lo as int, hi as int), d@, j),
        },
{
    let ghost s = v@.subrange(lo as int, hi as int);
    let mut i: usize = lo;
    while i < hi && d.len() <= hi - i
        invariant
            lo <= i <= hi <= v.len(),
            s == v@.subrange(lo as int, hi as int),
            forall|j: int| 0 <= j < i - lo ==> !occurs_at(s, d@, j),
        decreases hi - i,
    {
        let m = matches_at(v, i, d);
        assert(s.subrange(i - lo, i - lo + d.len()) =~= v@.subrange(i as int, i + d.len()));
        if m {
            return Some(i);
        }
        i = i + 1;
    }
    if d.len() == 0 && i == hi {
        assert(s.subrange(i - lo, i - lo) =~= d@);
        return Some(i);
    }
    None
}

/// Where the last `c` stands in `v[lo..hi]`.
pub fn rfind_char(v: &Vec<char>, lo: usize, hi: usize, c: char) -> (r: Option<usize>)
    requires
        lo <= hi <= v.len(),
    ensures
        match r {
            Some(k) => lo <= k && last_position(v@.subrange(lo as int, hi as int), c, k - lo),
            None => forall|j: int| lo <= j < hi ==> v@[j] != c,
        },
{
    let mut k: usize = hi;
    while k > lo
        invariant
            lo <= k <= hi <= v.len(),
            forall|j: int| k <= j < hi ==> v@[j] != c,
        decreases k,
    {
        if v[k - 1] == c {
            return Some(k - 1);
        }
        k = k - 1;
    }
    None
}

/// Where piece `n` of `v[lo..hi]`, cut at every occurrence of `d`, starts and
/// ends in `v`; `None` where there are not that many pieces.
pub fn piece_bounds(v: &Vec<char>, lo: usize, hi: usize, d: &Vec<char>, n: usize) -> (r: Option<
    (usize, usize),
>)
    requires
        lo <= hi <= v.len(),
    ensures
        match r {
            Some((a, b)) => lo <= a <= b <= hi && piece(
                v@.subrange(lo as int, hi as int),
                d@,
                n as nat,
            ) == Some(v@.subrange(a as int, b as int)),
            None => piece(v@.subrange(lo as int, hi as int), d@, n as nat) is None,
        },
{
    let mut start: usize = lo;
    let mut k: usize = 0;
    loop
        invariant
            lo <= start <= hi <= v.len(),
            k <= n,
            piece(v@.subrange(lo as int, hi as int), d@, n as nat) == piece(
                v@.subrange(start as int, hi as int),
                d@,
                (n - k) as nat,
            ),
        decreases n - k,
    {
        let ghost s = v@.subrange(start as int, hi as int);
        match find_from(v, start, hi, d) {
            Some(i) => {
                proof {
                    let c = choose|c: int| first_occurrence(s, d@, c);
                    lemma_first_occurrence_unique(s, d@, c, i - start);
                    assert(s.subrange(0, i - start) =~= v@.subrange(start as int, i as int));
                    assert(s.subrange(i - start + d.len(), s.len() as int) =~= v@.subrange(
                        i + d.len(),
                        hi as int,
                    ));
                }
                if k == n {
                    return Some((start, i));
                }
                start = i + d.len();
                k = k + 1;
            },
            None => {
                proof {
                    assert(!exists|c: int| first_occurrence(s, d@, c));
                }
                if k == n {
                    return Some((start, hi));
                }
                return None;
            },
        }
    }
}

/// Whether `a` and `b` hold the same characters.
pub fn same_text(a: &str, b: &str) -> (r: bool)
    ensures
        r == (a@ == b@),
{
    let va = chars_of(a);
    let vb = chars_of(b);
    if va.len() != vb.len() {
        return false;
    }
    let mut i: usize = 0;
    while i < va.len()
        invariant
            va@ == a@,
            vb@ == b@,
            va.len() == vb.len(),
            i <= va.len(),
            forall|k: int| 0 <= k < i ==> va@[k] == vb@[k],
        decreases va.len() - i,
    {
        if va[i] != vb[i] {
            assert(a@[i as int] != b@[i as int]);
            return false;
        }
        i = i + 1;
    }
    assert(va@ =~= vb@);
    true
}

} // verus!
