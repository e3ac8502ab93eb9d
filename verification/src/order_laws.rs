//! What the ordering of the cells amounts to: the cells around the last
//! move come first, the rest follow in the order they had.

use vstd::prelude::*;
use crate::board::{in_board, BOARD_SIZE};
use crate::candidates::{
    blank_cells, candidates_of, has_neighbor_in, is_first_index, lemma_blank_cells, neighbor,
    order_upto,
};
use crate::position::Position;

verus! {

/// Whether `c` is one of the first `n` positions around `last`.
pub open spec fn is_around(c: (usize, usize), last: (usize, usize), n: int) -> bool {
    exists|k: int| 0 <= k < n && #[trigger] neighbor(last, k) == (c.0 as int, c.1 as int)
}

/// The cells among the first `n` positions around `last` that `s` holds:
/// the one that comes last in the round comes first.
pub open spec fn around(s: Seq<(usize, usize)>, last: (usize, usize), n: int) -> Seq<(usize, usize)>
    decreases n,
{
    if n <= 0 {
        Seq::empty()
    } else {
        let pt = neighbor(last, n - 1);
        let rest = around(s, last, n - 1);
        if 0 <= pt.0 < BOARD_SIZE && 0 <= pt.1 < BOARD_SIZE && s.contains(
            (pt.0 as usize, pt.1 as usize),
        ) {
            seq![(pt.0 as usize, pt.1 as usize)] + rest
        } else {
            rest
        }
    }
}

/// The cells of `s` that are none of the first `n` positions around
/// `last`, in the order they have in `s`.
pub open spec fn apart(s: Seq<(usize, usize)>, last: (usize, usize), n: int) -> Seq<(usize, usize)> {
    s.filter(|c: (usize, usize)| !is_around(c, last, n))
}

/// Filters that agree on what a sequence holds give the same result.
pub proof fn lemma_filter_agree(
    s: Seq<(usize, usize)>,
    f: spec_fn((usize, usize)) -> bool,
    g: spec_fn((usize, usize)) -> bool,
)
    requires
        forall|i: int| 0 <= i < s.len() ==> f(#[trigger] s[i]) == g(s[i]),
    ensures
        s.filter(f) == s.filter(g),
    decreases s.len(),
{
    reveal(Seq::filter);
    if s.len() > 0 {
        lemma_filter_agree(s.drop_last(), f, g);
        assert(f(s[s.len() - 1]) == g(s[s.len() - 1]));
    }
}

/// Filtering a sequence without repetition by `f` and then taking out the
/// one cell `c` is filtering by `f` and by being another cell than `c`.
pub proof fn lemma_filter_remove(
    s: Seq<(usize, usize)>,
    f: spec_fn((usize, usize)) -> bool,
    g: spec_fn((usize, usize)) -> bool,
    c: (usize, usize),
    i: int,
)
    requires
        s.no_duplicates(),
        is_first_index(s.filter(f), c, i),
        forall|x: (usize, usize)| #[trigger] g(x) == (f(x) && x != c),
    ensures
        s.filter(f).remove(i) == s.filter(g),
    decreases s.len(),
{
    reveal(Seq::filter);
    broadcast use vstd::seq_lib::group_filter_ensures;

    let b = s.filter(f);
    if s.len() > 0 {
        let d = s.drop_last();
        let e = s.last();
        let db = d.filter(f);
        if e == c {
            assert(f(c)) by {
                s.lemma_filter_pred(f, i);
            }
            assert(b == db.push(c));
            assert(!db.contains(c)) by {
                if db.contains(c) {
                    d.lemma_filter_contains_rev(f, c);
                    let j = choose|j: int| 0 <= j < d.len() && d[j] == c;
                    assert(s[j] == s[s.len() - 1]);
                }
            }
            assert(i == db.len()) by {
                if i < db.len() {
                    assert(db[i] == c);
                    assert(db.contains(c));
                }
            }
            assert(b.remove(i) =~= db);
            assert(d.filter(g) == db) by {
                assert forall|k: int| 0 <= k < d.len() implies f(#[trigger] d[k]) == g(d[k]) by {
                    assert(s[k] != s[s.len() - 1]);
                }
                lemma_filter_agree(d, f, g);
            }
        } else if f(e) {
            assert(b == db.push(e));
            assert(b[db.len() as int] == e);
            assert(i < db.len());
            assert(is_first_index(db, c, i)) by {
                assert(db[i] == b[i]);
                assert forall|j: int| 0 <= j < i implies db[j] != c by {
                    assert(db[j] == b[j]);
                }
            }
            lemma_filter_remove(d, f, g, c, i);
            assert(b.remove(i) =~= db.remove(i).push(e));
        } else {
            assert(b == db);
            lemma_filter_remove(d, f, g, c, i);
        }
    }
}

/// The cells of `around` are cells of `s` around `last`, each once.
pub proof fn lemma_around(s: Seq<(usize, usize)>, last: (usize, usize), n: int)
    requires
        0 <= n <= 8,
    ensures
        forall|i: int|
            0 <= i < around(s, last, n).len() ==> is_around(
                #[trigger] around(s, last, n)[i],
                last,
                n,
            ) && s.contains(around(s, last, n)[i]),
    decreases n,
{
    if n > 0 {
        lemma_around(s, last, n - 1);
        let pt = neighbor(last, n - 1);
        let rest = around(s, last, n - 1);
        let a = around(s, last, n);
        assert forall|i: int| 0 <= i < a.len() implies is_around(#[trigger] a[i], last, n)
            && s.contains(a[i]) by {
            if a.len() == rest.len() {
                let k = choose|k: int|
                    0 <= k < n - 1 && #[trigger] neighbor(last, k) == (a[i].0 as int, a[i].1 as int);
                assert(neighbor(last, k) == (a[i].0 as int, a[i].1 as int));
            } else if i == 0 {
                assert(neighbor(last, n - 1) == (a[0].0 as int, a[0].1 as int));
            } else {
                assert(a[i] == rest[i - 1]);
                let k = choose|k: int|
                    0 <= k < n - 1 && #[trigger] neighbor(last, k) == (
                        rest[i - 1].0 as int,
                        rest[i - 1].1 as int,
                    );
                assert(neighbor(last, k) == (a[i].0 as int, a[i].1 as int));
            }
        }
    }
}

/// The eight positions around a cell are eight different positions.
pub proof fn lemma_neighbors_differ(last: (usize, usize), j: int, k: int)
    requires
        0 <= j < 8,
        0 <= k < 8,
        j != k,
    ensures
        neighbor(last, j) != neighbor(last, k),
{
}

/// What ordering amounts to, for cells of the grid without repetition: the cells
/// around the last move that the sequence holds come first, the one that
/// comes last in the round at the very front; the other cells follow in
/// the order they had.
pub proof fn law_order_puts_neighbors_first(s: Seq<(usize, usize)>, last: (usize, usize), n: int)
    requires
        s.no_duplicates(),
        forall|i: int| 0 <= i < s.len() ==> in_board(#[trigger] s[i]),
        in_board(last),
        0 <= n <= 8,
    ensures
        order_upto(s, last, n) == around(s, last, n) + apart(s, last, n),
    decreases n,
{
    reveal(Seq::filter);
    broadcast use vstd::seq_lib::group_filter_ensures;

    if n <= 0 {
        let keep = |c: (usize, usize)| !is_around(c, last, 0);
        assert forall|i: int| 0 <= i < s.len() implies keep(#[trigger] s[i]) == true by {}
        lemma_filter_agree(s, keep, |c: (usize, usize)| true);
        lemma_filter_all(s);
        assert(around(s, last, n) + apart(s, last, n) =~= s);
    } else {
        law_order_puts_neighbors_first(s, last, n - 1);
        lemma_around(s, last, n - 1);
        let before = order_upto(s, last, n - 1);
        let a = around(s, last, n - 1);
        let f = |c: (usize, usize)| !is_around(c, last, n - 1);
        let g = |c: (usize, usize)| !is_around(c, last, n);
        let b = s.filter(f);
        let pt = neighbor(last, n - 1);
        if 0 <= pt.0 < BOARD_SIZE && 0 <= pt.1 < BOARD_SIZE {
            let c = (pt.0 as usize, pt.1 as usize);
            assert(neighbor(last, n - 1) == (c.0 as int, c.1 as int));
            assert(!is_around(c, last, n - 1)) by {
                if is_around(c, last, n - 1) {
                    let k = choose|k: int|
                        0 <= k < n - 1 && #[trigger] neighbor(last, k) == (c.0 as int, c.1 as int);
                    lemma_neighbors_differ(last, k, n - 1);
                }
            }
            assert forall|x: (usize, usize)| #[trigger] g(x) == (f(x) && x != c) by {
                if is_around(x, last, n) {
                    let k = choose|k: int|
                        0 <= k < n && #[trigger] neighbor(last, k) == (x.0 as int, x.1 as int);
                    if k < n - 1 {
                        assert(is_around(x, last, n - 1));
                    }
                }
                if is_around(x, last, n - 1) {
                    let k = choose|k: int|
                        0 <= k < n - 1 && #[trigger] neighbor(last, k) == (x.0 as int, x.1 as int);
                    assert(is_around(x, last, n));
                }
                if x == c {
                    assert(is_around(x, last, n));
                }
            }
            if s.contains(c) {
                let w = choose|w: int| 0 <= w < s.len() && s[w] == c;
                s.lemma_filter_contains(f, w);
                assert(b.contains(c));
                let at = choose|at: int| 0 <= at < b.len() && b[at] == c;
                crate::candidates::lemma_filter_no_duplicates(s, f);
                assert(is_first_index(b, c, at));
                assert(!a.contains(c)) by {
                    if a.contains(c) {
                        let i = choose|i: int| 0 <= i < a.len() && a[i] == c;
                        assert(is_around(a[i], last, n - 1));
                    }
                }
                let whole = a + b;
                assert(is_first_index(whole, c, a.len() + at)) by {
                    assert forall|j: int| 0 <= j < a.len() + at implies whole[j] != c by {
                        if j < a.len() {
                            assert(a.contains(a[j]));
                        } else {
                            assert(whole[j] == b[j - a.len()]);
                        }
                    }
                }
                assert(whole.contains(c));
                assert forall|i: int| is_first_index(whole, c, i) implies i == a.len() + at by {}
                lemma_filter_remove(s, f, g, c, at);
                assert(whole.remove(a.len() + at).insert(0, c) =~= (seq![c] + a) + b.remove(at));
            } else {
                assert forall|i: int| 0 <= i < s.len() implies f(#[trigger] s[i]) == g(s[i]) by {
                    assert(s.contains(s[i]));
                }
                lemma_filter_agree(s, f, g);
                assert(!before.contains(c)) by {
                    crate::candidates::lemma_order_upto(s, last, n - 1);
                }
            }
        } else {
            assert forall|i: int| 0 <= i < s.len() implies f(#[trigger] s[i]) == g(s[i]) by {
                let x = s[i];
                assert(in_board(x));
                if is_around(x, last, n) && !is_around(x, last, n - 1) {
                    let k = choose|k: int|
                        0 <= k < n && #[trigger] neighbor(last, k) == (x.0 as int, x.1 as int);
                    assert(k == n - 1);
                }
                if is_around(x, last, n - 1) {
                    let k = choose|k: int|
                        0 <= k < n - 1 && #[trigger] neighbor(last, k) == (x.0 as int, x.1 as int);
                    assert(is_around(x, last, n));
                }
            }
            lemma_filter_agree(s, f, g);
        }
    }
}

/// The candidates of a position that holds a stone: first the empty cells
/// around the last move, the one that comes last in the round at the very
/// front, then the other empty cells next to a stone, row by row.
pub proof fn law_candidates_order(p: Position)
    requires
        p.wf(),
        p.all.len() > 0,
    ensures
        candidates_of(p) == around(blank_cells(p), p.all.last(), 8).filter(
            |c: (usize, usize)| has_neighbor_in(p.stones(), c),
        ) + apart(blank_cells(p), p.all.last(), 8).filter(
            |c: (usize, usize)| has_neighbor_in(p.stones(), c),
        ),
{
    reveal(candidates_of);
    let blanks = blank_cells(p);
    let last = p.all.last();
    lemma_blank_cells(p);
    assert(in_board(p.all[p.all.len() - 1]));
    assert forall|i: int| 0 <= i < blanks.len() implies in_board(#[trigger] blanks[i]) by {
        assert(blanks.contains(blanks[i]));
        assert(p.is_empty_cell(blanks[i]));
    }
    law_order_puts_neighbors_first(blanks, last, 8);
    Seq::filter_distributes_over_add(
        around(blanks, last, 8),
        apart(blanks, last, 8),
        |c: (usize, usize)| has_neighbor_in(p.stones(), c),
    );
}

/// A filter that keeps every cell changes nothing.
pub proof fn lemma_filter_all(s: Seq<(usize, usize)>)
    ensures
        s.filter(|c: (usize, usize)| true) == s,
    decreases s.len(),
{
    reveal(Seq::filter);
    if s.len() > 0 {
        lemma_filter_all(s.drop_last());
        assert(s.drop_last().push(s.last()) =~= s);
    }
}

} // verus!
