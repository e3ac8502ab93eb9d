//! Position fingerprints: one random key per cell and colour, combined by
//! exclusive or, so that the order of the moves leaves no trace.

use vstd::prelude::*;
use crate::board::{cell_at, cell_index, in_board, BOARD_SIZE, CELL_COUNT};

verus! {

/// What the cell with index `k` adds to a fingerprint: its black key where
/// `black` holds it, its white key where `white` holds it, else nothing.
pub open spec fn cell_key(
    black_keys: Seq<u64>,
    white_keys: Seq<u64>,
    black: Set<(usize, usize)>,
    white: Set<(usize, usize)>,
    k: int,
) -> u64 {
    if black.contains(cell_at(k)) {
        black_keys[k]
    } else if white.contains(cell_at(k)) {
        white_keys[k]
    } else {
        0
    }
}

/// Exclusive or of what the first `n` cells add.
pub open spec fn fingerprint_upto(
    black_keys: Seq<u64>,
    white_keys: Seq<u64>,
    black: Set<(usize, usize)>,
    white: Set<(usize, usize)>,
    n: int,
) -> u64
    decreases n,
{
    if n <= 0 {
        0
    } else {
        fingerprint_upto(black_keys, white_keys, black, white, n - 1) ^ cell_key(
            black_keys,
            white_keys,
            black,
            white,
            n - 1,
        )
    }
}

/// The fingerprint of the layout `(black, white)`: a function of the two
/// sets of stones alone.
pub open spec fn fingerprint(
    black_keys: Seq<u64>,
    white_keys: Seq<u64>,
    black: Set<(usize, usize)>,
    white: Set<(usize, usize)>,
) -> u64 {
    fingerprint_upto(black_keys, white_keys, black, white, CELL_COUNT as int)
}

/// Exclusive or with the same value twice changes nothing.
pub proof fn lemma_xor_twice(h: u64, v: u64)
    ensures
        (h ^ v) ^ v == h,
{
    assert((h ^ v) ^ v == h) by (bit_vector);
}

/// Exclusive or with two values gives the same result in either order.
pub proof fn lemma_xor_swap(h: u64, a: u64, b: u64)
    ensures
        (h ^ a) ^ b == (h ^ b) ^ a,
{
    assert((h ^ a) ^ b == (h ^ b) ^ a) by (bit_vector);
}

/// Two layouts that differ in one cell have fingerprints that differ by
/// the exclusive or of what that cell adds to each.
pub proof fn lemma_fingerprint_toggle(
    black_keys: Seq<u64>,
    white_keys: Seq<u64>,
    black1: Set<(usize, usize)>,
    white1: Set<(usize, usize)>,
    black2: Set<(usize, usize)>,
    white2: Set<(usize, usize)>,
    k0: int,
    v: u64,
    n: int,
)
    requires
        forall|k: int|
            0 <= k < n && k != k0 ==> cell_key(black_keys, white_keys, black2, white2, k)
                == cell_key(black_keys, white_keys, black1, white1, k),
        cell_key(black_keys, white_keys, black2, white2, k0) == cell_key(
            black_keys,
            white_keys,
            black1,
            white1,
            k0,
        ) ^ v,
    ensures
        fingerprint_upto(black_keys, white_keys, black2, white2, n) == fingerprint_upto(
            black_keys,
            white_keys,
            black1,
            white1,
            n,
        ) ^ (if 0 <= k0 < n {
            v
        } else {
            0
        }),
    decreases n,
{
    if n <= 0 {
        assert(0u64 ^ 0u64 == 0u64) by (bit_vector);
    } else {
        lemma_fingerprint_toggle(black_keys, white_keys, black1, white1, black2, white2, k0, v, n - 1);
        let f1 = fingerprint_upto(black_keys, white_keys, black1, white1, n - 1);
        let key1 = cell_key(black_keys, white_keys, black1, white1, n - 1);
        if n - 1 == k0 {
            assert((f1 ^ 0u64) ^ (key1 ^ v) == (f1 ^ key1) ^ v) by (bit_vector);
        } else if k0 < n - 1 && 0 <= k0 {
            assert((f1 ^ v) ^ key1 == (f1 ^ key1) ^ v) by (bit_vector);
        } else {
            assert((f1 ^ 0u64) ^ key1 == (f1 ^ key1) ^ 0u64) by (bit_vector);
        }
    }
}

/// A cell's index leads back to the cell, and no other index does.
pub proof fn lemma_cell_index(c: (usize, usize))
    requires
        in_board(c),
    ensures
        0 <= cell_index(c) < CELL_COUNT,
        cell_at(cell_index(c)) == c,
        forall|k: int| 0 <= k < CELL_COUNT && cell_at(k) == c ==> k == cell_index(c),
{
}

/// Draws a 64-bit key from the random generator of the current thread.
///
/// Trusted, not verified: the body calls `rand::random`. Nothing is claimed
/// of the value, and two calls may give any two values. `rand::random`
/// panics where the operating system cannot seed the generator.
#[verifier::external_body]
fn random_key() -> u64 {
    rand::random::<u64>()
}

/// The table of keys and the running fingerprint.
#[derive(Debug)]
pub struct GobangZobrist {
    black: Vec<u64>,
    white: Vec<u64>,
    hash: u64,
}

impl GobangZobrist {
    /// The representation invariant: one key per cell and colour.
    pub closed spec fn wf(&self) -> bool {
        self.black@.len() == CELL_COUNT && self.white@.len() == CELL_COUNT
    }

    /// The keys of the black stones, by cell index.
    pub closed spec fn black_keys(&self) -> Seq<u64> {
        self.black@
    }

    /// The keys of the white stones, by cell index.
    pub closed spec fn white_keys(&self) -> Seq<u64> {
        self.white@
    }

    /// The running fingerprint.
    pub closed spec fn hash(&self) -> u64 {
        self.hash
    }

    /// The key of the stone of the given colour on `(x, y)`.
    pub open spec fn key(&self, x: usize, y: usize, is_black: bool) -> u64 {
        if is_black {
            self.black_keys()[cell_index((x, y))]
        } else {
            self.white_keys()[cell_index((x, y))]
        }
    }

    /// The fingerprint that these keys give the layout `(black, white)`.
    pub open spec fn layout_hash(&self, black: Set<(usize, usize)>, white: Set<(usize, usize)>) -> u64 {
        fingerprint(self.black_keys(), self.white_keys(), black, white)
    }

    /// Fresh random keys and the fingerprint of the empty grid.
    pub fn new() -> (z: GobangZobrist)
        ensures
            z.wf(),
            z.hash() == 0,
    {
        let mut black: Vec<u64> = Vec::new();
        let mut white: Vec<u64> = Vec::new();
        let mut k: usize = 0;
        while k < CELL_COUNT
            invariant
                k <= CELL_COUNT,
                black@.len() == k,
                white@.len() == k,
            decreases CELL_COUNT - k,
        {
            black.push(random_key());
            white.push(random_key());
            k += 1;
        }
        GobangZobrist { black, white, hash: 0 }
    }

    /// The given keys, where each table has one key per cell, and the
    /// fingerprint of the empty grid.
    pub fn from_keys(black: Vec<u64>, white: Vec<u64>) -> (z: Option<GobangZobrist>)
        ensures
            z.is_some() <==> black@.len() == CELL_COUNT && white@.len() == CELL_COUNT,
            z matches Some(t) ==> t.wf() && t.hash() == 0 && t.black_keys() == black@
                && t.white_keys() == white@,
    {
        if black.len() == CELL_COUNT && white.len() == CELL_COUNT {
            Some(GobangZobrist { black, white, hash: 0 })
        } else {
            None
        }
    }

    /// Puts the stone of the given colour on `(x, y)` into the fingerprint,
    /// or takes it out if it was in.
    pub fn update(&mut self, x: usize, y: usize, is_black: bool)
        requires
            old(self).wf(),
            in_board((x, y)),
        ensures
            final(self).wf(),
            final(self).black_keys() == old(self).black_keys(),
            final(self).white_keys() == old(self).white_keys(),
            final(self).hash() == old(self).hash() ^ old(self).key(x, y, is_black),
    {
        let k = x * BOARD_SIZE + y;
        let v = if is_black {
            self.black[k]
        } else {
            self.white[k]
        };
        self.hash = self.hash ^ v;
    }

    /// Sets the running fingerprint back to that of the empty grid.
    pub fn reset(&mut self)
        requires
            old(self).wf(),
        ensures
            final(self).wf(),
            final(self).black_keys() == old(self).black_keys(),
            final(self).white_keys() == old(self).white_keys(),
            final(self).hash() == 0,
    {
        self.hash = 0;
    }

    /// The running fingerprint.
    pub fn get_hash(&self) -> (h: u64)
        ensures
            h == self.hash(),
    {
        self.hash
    }
}

} // verus!
