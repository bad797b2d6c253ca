//! The canonical form of a position, in which blocks are listed in a fixed order, and the
//! key under which the solver remembers a position it has seen.

use vstd::prelude::*;

use crate::board::{Board, all_fit, well_formed};
use crate::piece::{Piece, piece_le, piece_leq, piece_order, lemma_piece_order_total};

verus! {

broadcast use {vstd::seq_lib::group_to_multiset_ensures, vstd::multiset::group_multiset_axioms};

/// The code stored for cell `c` (numbered row by row) after the first `n` blocks: 0 when no
/// block has its top-left cell there, otherwise one more than the kind's rank of the last
/// such block.
pub open spec fn anchor_code(s: Seq<Piece>, n: int, c: int) -> u8
    decreases n,
{
    if n <= 0 {
        0
    } else if s[n - 1].y * 4 + s[n - 1].x == c {
        (s[n - 1].piece_type.rank() + 1) as u8
    } else {
        anchor_code(s, n - 1, c)
    }
}

/// The codes of the first `c` cells, three bits per cell, cell 0 in the lowest bits.
pub open spec fn packed_codes(s: Seq<Piece>, c: int) -> u64
    decreases c,
{
    if c <= 0 {
        0
    } else {
        packed_codes(s, c - 1) | ((anchor_code(s, s.len() as int, c - 1) as u64) << ((3 * (c - 1)) as u64))
    }
}

/// The key of a position: the kind of block whose top-left corner lies in each cell, packed
/// three bits per cell.
pub open spec fn board_key(s: Seq<Piece>) -> u64 {
    packed_codes(s, 20)
}

/// Block `a` may come before block `b` in a canonical list: a kind earlier in the order
/// Red2x2, Yellow1x2, Yellow2x1, Blue1x1, or the same kind and a smaller row, or the same kind
/// and row and a column no larger.
pub open spec fn listed_in_order(a: Piece, b: Piece) -> bool {
    &&& a.piece_type.rank() <= b.piece_type.rank()
    &&& a.piece_type == b.piece_type ==> a.y <= b.y
    &&& a.piece_type == b.piece_type && a.y == b.y ==> a.x <= b.x
}

/// The canonical form holds the same blocks, listed by kind, then row, then column.
pub proof fn lemma_canonical_order(s: Seq<Piece>)
    ensures
        s.sort_by(piece_order()).to_multiset() == s.to_multiset(),
        s.sort_by(piece_order()).len() == s.len(),
        forall|i: int, j: int|
            0 <= i < j < s.sort_by(piece_order()).len() ==> listed_in_order(
                #[trigger] s.sort_by(piece_order())[i],
                #[trigger] s.sort_by(piece_order())[j],
            ),
{
    let t = s.sort_by(piece_order());
    lemma_piece_order_total();
    s.lemma_sort_by_ensures(piece_order());
    assert(t.to_multiset().len() == t.len());
    assert(s.to_multiset().len() == s.len());
    assert forall|i: int, j: int| 0 <= i < j < t.len() implies listed_in_order(#[trigger] t[i], #[trigger] t[j]) by {
        assert(piece_order()(t[i], t[j]));
        if t[i].piece_type.rank() == t[j].piece_type.rank() {
            assert(t[i].piece_type == t[j].piece_type);
        }
    }
}

/// Any list sorted by `piece_le` that has the same blocks as `s` is the canonical form of `s`.
proof fn lemma_sorted_is_canonical(s: Seq<Piece>, t: Seq<Piece>)
    requires
        vstd::relations::sorted_by(t, piece_order()),
        t.to_multiset() == s.to_multiset(),
    ensures
        t == s.sort_by(piece_order()),
{
    lemma_piece_order_total();
    s.lemma_sort_by_ensures(piece_order());
    vstd::seq_lib::lemma_sorted_unique(t, s.sort_by(piece_order()), piece_order());
}

/// The canonical form depends only on which blocks are in the tray, not on their order.
pub proof fn lemma_canonical_ignores_order(s: Seq<Piece>, t: Seq<Piece>)
    requires
        s.to_multiset() == t.to_multiset(),
    ensures
        s.sort_by(piece_order()) == t.sort_by(piece_order()),
{
    lemma_piece_order_total();
    t.lemma_sort_by_ensures(piece_order());
    lemma_sorted_is_canonical(s, t.sort_by(piece_order()));
}

/// Putting a canonical position in canonical form leaves it as it is.
pub proof fn lemma_canonical_idempotent(s: Seq<Piece>)
    ensures
        s.sort_by(piece_order()).sort_by(piece_order()) == s.sort_by(piece_order()),
{
    lemma_piece_order_total();
    let t = s.sort_by(piece_order());
    s.lemma_sort_by_ensures(piece_order());
    lemma_sorted_is_canonical(t, t);
}

/// The canonical form of a valid position is a valid position with as many blocks.
pub proof fn lemma_canonical_keeps_wf(s: Seq<Piece>)
    requires
        well_formed(s),
    ensures
        well_formed(s.sort_by(piece_order())),
        s.sort_by(piece_order()).len() == s.len(),
{
    lemma_piece_order_total();
    let t = s.sort_by(piece_order());
    s.lemma_sort_by_ensures(piece_order());
    assert(s.to_multiset().len() == s.len());
    assert(t.to_multiset().len() == t.len());
    assert forall|i: int, j: int| 0 <= i < s.len() && 0 <= j < s.len() && i != j implies s[i] != s[j] by {
        assert(s[i].apart(s[j]));
    }
    assert(s.no_duplicates());
    s.lemma_multiset_has_no_duplicates();
    t.lemma_multiset_has_no_duplicates_conv();
    assert forall|x: int| 0 <= x < t.len() implies s.contains(t[x]) by {
        assert(t.to_multiset().count(t[x]) > 0);
    }
    assert forall|x: int| 0 <= x < t.len() implies #[trigger] t[x].fits() by {
        assert(s.contains(t[x]));
        let i = choose|i: int| 0 <= i < s.len() && s[i] == t[x];
    }
    assert forall|x: int, y: int| 0 <= x < t.len() && 0 <= y < t.len() && x != y implies #[trigger] t[x].apart(
        #[trigger] t[y],
    ) by {
        assert(s.contains(t[x]));
        assert(s.contains(t[y]));
        let i = choose|i: int| 0 <= i < s.len() && s[i] == t[x];
        let j = choose|j: int| 0 <= j < s.len() && s[j] == t[y];
        assert(t[x] != t[y]);
        assert(s[i].apart(s[j]));
    }
}

/// Block `p` has its top-left cell at cell number `c` (cells numbered row by row).
pub open spec fn anchored_at(p: Piece, c: int) -> bool {
    p.y * 4 + p.x == c
}

/// The code of a block's kind in the key: one more than its rank.
pub open spec fn kind_code(p: Piece) -> u8 {
    (p.piece_type.rank() + 1) as u8
}

/// On a valid position the code of a cell is that of the block anchored there, or 0 when
/// no block is.
proof fn lemma_anchor_code_wf(s: Seq<Piece>, n: int, c: int)
    requires
        well_formed(s),
        0 <= n <= s.len(),
    ensures
        anchor_code(s, n, c) == 0 <==> (forall|i: int| 0 <= i < n ==> !anchored_at(#[trigger] s[i], c)),
        forall|i: int| 0 <= i < n && anchored_at(#[trigger] s[i], c) ==> anchor_code(s, n, c) == kind_code(s[i]),
    decreases n,
{
    if n > 0 {
        lemma_anchor_code_wf(s, n - 1, c);
        let q = s[n - 1];
        assert(q.fits());
        if anchored_at(q, c) {
            assert forall|i: int| 0 <= i < n - 1 implies !anchored_at(#[trigger] s[i], c) by {
                assert(s[i].fits());
                if anchored_at(s[i], c) {
                    assert(s[i].x == q.x && s[i].y == q.y);
                    assert(s[i].apart(q));
                }
            }
        }
    }
}

/// The packed codes of the first `c` cells stay below `8^c`, and each group of three bits
/// holds the code of its cell.
proof fn lemma_packed_bits(s: Seq<Piece>, c: int)
    requires
        all_fit(s),
        0 <= c <= 20,
    ensures
        (packed_codes(s, c) as int) < pow8(c),
        forall|j: int|
            0 <= j < c ==> #[trigger] ((packed_codes(s, c) >> ((3 * j) as u64)) & 7u64) == anchor_code(
                s,
                s.len() as int,
                j,
            ) as u64,
    decreases c,
{
    if c > 0 {
        lemma_packed_bits(s, c - 1);
        lemma_anchor_code_small(s, s.len() as int, c - 1);
        let prev = packed_codes(s, c - 1);
        let b = anchor_code(s, s.len() as int, c - 1) as u64;
        let k = (3 * (c - 1)) as u64;
        lemma_pow8_shift(c - 1);
        assert(prev < (1u64 << k));
        lemma_or_shift(prev, b, k);
        assert(packed_codes(s, c) == prev | (b << k));
        assert forall|j: int| 0 <= j < c implies #[trigger] ((packed_codes(s, c) >> ((3 * j) as u64)) & 7u64)
            == anchor_code(s, s.len() as int, j) as u64 by {
            let jj = (3 * j) as u64;
            if j < c - 1 {
                lemma_or_shift_low(prev, b, k, jj);
            } else {
                assert(jj == k);
            }
        }
        lemma_pow8_shift(c);
    }
}

/// Eight to the power `c`.
pub open spec fn pow8(c: int) -> int
    decreases c,
{
    if c <= 0 {
        1
    } else {
        8 * pow8(c - 1)
    }
}

/// `8^c` as a shift, for `c` up to 20.
proof fn lemma_pow8_shift(c: int)
    requires
        0 <= c <= 20,
    ensures
        pow8(c) == (1u64 << ((3 * c) as u64)) as int,
    decreases c,
{
    if c > 0 {
        lemma_pow8_shift(c - 1);
        let k = (3 * (c - 1)) as u64;
        assert(k <= 57);
        assert((1u64 << (k + 3)) == 8 * (1u64 << k)) by (bit_vector)
            requires
                k <= 57,
        ;
    } else {
        assert((1u64 << 0u64) == 1) by (bit_vector);
    }
}

/// A cell code is at most 4.
proof fn lemma_anchor_code_small(s: Seq<Piece>, n: int, c: int)
    ensures
        anchor_code(s, n, c) <= 4,
    decreases n,
{
    if n > 0 {
        lemma_anchor_code_small(s, n - 1, c);
    }
}

/// Putting a code of at most three bits above the bits of `x` keeps it below the next
/// boundary and puts exactly that code in those three bits.
proof fn lemma_or_shift(x: u64, b: u64, k: u64)
    requires
        k <= 57,
        x < (1u64 << k),
        b < 8,
    ensures
        ((x | (b << k)) >> k) & 7u64 == b,
        (x | (b << k)) < (1u64 << (k + 3)),
{
    assert(((x | (b << k)) >> k) & 7u64 == b && (x | (b << k)) < (1u64 << (k + 3))) by (bit_vector)
        requires
            k <= 57,
            x < (1u64 << k),
            b < 8,
    ;
}

/// Putting bits above position `k` leaves the three bits at `j` (with `j + 3 <= k`) alone.
proof fn lemma_or_shift_low(x: u64, b: u64, k: u64, j: u64)
    requires
        k <= 57,
        x < (1u64 << k),
        b < 8,
        j + 3 <= k,
    ensures
        ((x | (b << k)) >> j) & 7u64 == (x >> j) & 7u64,
{
    assert(((x | (b << k)) >> j) & 7u64 == (x >> j) & 7u64) by (bit_vector)
        requires
            k <= 57,
            x < (1u64 << k),
            b < 8,
            j + 3 <= k,
    ;
}

/// Equal cell codes give equal packed keys.
proof fn lemma_packed_same(s: Seq<Piece>, t: Seq<Piece>, c: int)
    requires
        forall|j: int| 0 <= j < 20 ==> anchor_code(s, s.len() as int, j) == anchor_code(t, t.len() as int, j),
        c <= 20,
    ensures
        packed_codes(s, c) == packed_codes(t, c),
    decreases c,
{
    if c > 0 {
        lemma_packed_same(s, t, c - 1);
    }
}

/// On valid positions, equal cell codes mean the same blocks.
proof fn lemma_codes_give_blocks(s: Seq<Piece>, t: Seq<Piece>)
    requires
        well_formed(s),
        well_formed(t),
        forall|j: int| 0 <= j < 20 ==> anchor_code(s, s.len() as int, j) == anchor_code(t, t.len() as int, j),
    ensures
        forall|p: Piece| s.contains(p) ==> t.contains(p),
{
    assert forall|p: Piece| s.contains(p) implies t.contains(p) by {
        let i = choose|i: int| 0 <= i < s.len() && s[i] == p;
        assert(p.fits());
        let c = p.y * 4 + p.x;
        assert(0 <= c < 20);
        lemma_anchor_code_wf(s, s.len() as int, c);
        lemma_anchor_code_wf(t, t.len() as int, c);
        assert(anchor_code(s, s.len() as int, c) == kind_code(p));
        assert(anchor_code(t, t.len() as int, c) != 0);
        let j = choose|j: int| 0 <= j < t.len() && anchored_at(#[trigger] t[j], c);
        assert(kind_code(t[j]) == kind_code(p));
        assert(t[j].fits());
        assert(t[j].x == p.x && t[j].y == p.y);
        assert(t[j].piece_type.rank() == p.piece_type.rank());
        assert(t[j] == p);
    }
}

/// On valid positions, the same blocks give equal cell codes.
proof fn lemma_blocks_give_codes(s: Seq<Piece>, t: Seq<Piece>)
    requires
        well_formed(s),
        well_formed(t),
        forall|p: Piece| s.contains(p) <==> t.contains(p),
    ensures
        forall|j: int| 0 <= j < 20 ==> anchor_code(s, s.len() as int, j) == anchor_code(t, t.len() as int, j),
{
    assert forall|j: int| 0 <= j < 20 implies anchor_code(s, s.len() as int, j) == anchor_code(
        t,
        t.len() as int,
        j,
    ) by {
        lemma_anchor_code_wf(s, s.len() as int, j);
        lemma_anchor_code_wf(t, t.len() as int, j);
        if anchor_code(s, s.len() as int, j) != 0 {
            let i = choose|i: int| 0 <= i < s.len() && anchored_at(#[trigger] s[i], j);
            assert(s.contains(s[i]));
            let k = choose|k: int| 0 <= k < t.len() && t[k] == s[i];
            assert(anchored_at(t[k], j));
        } else if anchor_code(t, t.len() as int, j) != 0 {
            let i = choose|i: int| 0 <= i < t.len() && anchored_at(#[trigger] t[i], j);
            assert(t.contains(t[i]));
            let k = choose|k: int| 0 <= k < s.len() && s[k] == t[i];
            assert(anchored_at(s[k], j));
        }
    }
}

/// A valid position lists no block twice, so each block it holds counts once.
proof fn lemma_wf_counts(s: Seq<Piece>)
    requires
        well_formed(s),
    ensures
        forall|p: Piece| #[trigger] s.to_multiset().count(p) == if s.contains(p) { 1nat } else { 0nat },
{
    assert forall|i: int, j: int| 0 <= i < s.len() && 0 <= j < s.len() && i != j implies s[i] != s[j] by {
        assert(s[i].apart(s[j]));
    }
    assert(s.no_duplicates());
    s.lemma_multiset_has_no_duplicates();
    assert forall|p: Piece| #[trigger] s.to_multiset().count(p) == if s.contains(p) { 1nat } else { 0nat } by {
        if s.contains(p) {
            assert(s.to_multiset().contains(p));
        }
    }
}

/// On valid positions, two keys are equal exactly when the positions hold the same blocks,
/// that is, when their canonical forms are equal.
pub proof fn lemma_key_identifies_canonical_form(s: Seq<Piece>, t: Seq<Piece>)
    requires
        well_formed(s),
        well_formed(t),
    ensures
        board_key(s) == board_key(t) <==> s.sort_by(piece_order()) == t.sort_by(piece_order()),
{
    lemma_piece_order_total();
    s.lemma_sort_by_ensures(piece_order());
    t.lemma_sort_by_ensures(piece_order());
    lemma_wf_counts(s);
    lemma_wf_counts(t);
    if board_key(s) == board_key(t) {
        lemma_packed_bits(s, 20);
        lemma_packed_bits(t, 20);
        assert forall|j: int| 0 <= j < 20 implies anchor_code(s, s.len() as int, j) == anchor_code(
            t,
            t.len() as int,
            j,
        ) by {
            assert(((packed_codes(s, 20) >> ((3 * j) as u64)) & 7u64) == anchor_code(s, s.len() as int, j) as u64);
            assert(((packed_codes(t, 20) >> ((3 * j) as u64)) & 7u64) == anchor_code(t, t.len() as int, j) as u64);
        }
        lemma_codes_give_blocks(s, t);
        assert forall|j: int| 0 <= j < 20 implies anchor_code(t, t.len() as int, j) == anchor_code(
            s,
            s.len() as int,
            j,
        ) by {}
        lemma_codes_give_blocks(t, s);
        assert(s.to_multiset() =~= t.to_multiset());
        lemma_canonical_ignores_order(s, t);
    }
    if s.sort_by(piece_order()) == t.sort_by(piece_order()) {
        assert(s.to_multiset() == t.to_multiset());
        assert forall|p: Piece| s.contains(p) <==> t.contains(p) by {
            assert(s.to_multiset().count(p) == t.to_multiset().count(p));
        }
        lemma_blocks_give_codes(s, t);
        lemma_packed_same(s, t, 20);
    }
}

impl Board {
    /// Lists the blocks in canonical order: by kind in declaration order, then by row, then
    /// by column.
    pub fn canonicalize(&mut self)
        ensures
            final(self)@ == old(self)@.sort_by(piece_order()),
            final(self)@.to_multiset() == old(self)@.to_multiset(),
            forall|i: int, j: int|
                0 <= i < j < final(self)@.len() ==> listed_in_order(#[trigger] final(self)@[i], #[trigger] final(self)@[j]),
    {
        let ghost s0 = self@;
        let n = self.pieces.len();
        let mut i: usize = 0;
        while i < n
            invariant
                n == self@.len(),
                i <= n,
                self@.to_multiset() == s0.to_multiset(),
                forall|a: int, b: int| 0 <= a < b < i ==> piece_le(self@[a], self@[b]),
                forall|a: int, b: int| 0 <= a < i <= b < n ==> piece_le(self@[a], self@[b]),
            decreases n - i,
        {
            let mut m: usize = i;
            let mut j: usize = i + 1;
            while j < n
                invariant
                    n == self@.len(),
                    i <= m < n,
                    i < j <= n,
                    forall|k: int| i <= k < j ==> piece_le(self@[m as int], #[trigger] self@[k]),
                decreases n - j,
            {
                if !piece_leq(&self.pieces[m], &self.pieces[j]) {
                    m = j;
                }
                j += 1;
            }
            let ghost before = self@;
            let a = self.pieces[i];
            let b = self.pieces[m];
            self.pieces.set(i, b);
            self.pieces.set(m, a);
            proof {
                let s1 = before.update(i as int, b);
                assert(self@ == s1.update(m as int, a));
                assert(s1[m as int] == b);
                assert(s1.to_multiset() == before.to_multiset().insert(b).remove(a));
                assert(self@.to_multiset() == s1.to_multiset().insert(a).remove(b));
                assert(self@.to_multiset() =~= before.to_multiset());
                assert forall|x: int, y: int| 0 <= x < y < i + 1 implies piece_le(self@[x], self@[y]) by {
                    if y == i {
                        assert(self@[y] == before[m as int]);
                        assert(self@[x] == before[x]);
                    } else {
                        assert(self@[x] == before[x] && self@[y] == before[y]);
                    }
                }
                assert forall|x: int, y: int| 0 <= x < i + 1 <= y < n implies piece_le(self@[x], self@[y]) by {
                    if x == i {
                        assert(self@[x] == before[m as int]);
                        if y == m {
                            assert(self@[y] == before[i as int]);
                        } else {
                            assert(self@[y] == before[y]);
                        }
                    } else {
                        assert(self@[x] == before[x]);
                        if y == m {
                            assert(self@[y] == before[i as int]);
                        } else {
                            assert(self@[y] == before[y]);
                        }
                    }
                }
            }
            i += 1;
        }
        proof {
            lemma_piece_order_total();
            s0.lemma_sort_by_ensures(piece_order());
            assert(vstd::relations::sorted_by(self@, piece_order()));
            vstd::seq_lib::lemma_sorted_unique(self@, s0.sort_by(piece_order()), piece_order());
            lemma_canonical_order(s0);
        }
    }

    /// The key under which the solver records this position.
    pub fn state_key(&self) -> (key: u64)
        requires
            all_fit(self@),
        ensures
            key == board_key(self@),
    {
        let mut codes: [u8; 20] = [0u8; 20];
        let n = self.pieces.len();
        let mut idx: usize = 0;
        while idx < n
            invariant
                n == self@.len(),
                idx <= n,
                all_fit(self@),
                forall|c: int| 0 <= c < 20 ==> #[trigger] codes@[c] == anchor_code(self@, idx as int, c),
            decreases n - idx,
        {
            let p = self.pieces[idx];
            assert(p.fits());
            let c = (p.y as usize) * 4 + (p.x as usize);
            let code = p.piece_type.rank_of() + 1;
            codes[c] = code;
            idx += 1;
        }
        let mut key: u64 = 0;
        let mut c: usize = 0;
        while c < 20
            invariant
                c <= 20,
                forall|k: int| 0 <= k < 20 ==> #[trigger] codes@[k] == anchor_code(self@, n as int, k),
                n == self@.len(),
                key == packed_codes(self@, c as int),
            decreases 20 - c,
        {
            let shift: u64 = 3 * (c as u64);
            key = key | ((codes[c] as u64) << shift);
            c += 1;
        }
        key
    }
}

} // verus!
