//! Which pieces a peer has: one bit per piece, most significant bit first,
//! `ceil(total_pieces / 8)` bytes, with the bits past the last piece clear.

use vstd::prelude::*;

use crate::decimal::{lemma_nat_digits_shape, nat_digits, push_decimal_u64};
use crate::text::{ascii_text, lemma_ascii_text, string_from_utf8};
use crate::types::PieceIndex;

verus! {

/// Bit `k` (0 is the least significant) of `b`.
pub open spec fn bit_of(b: u8, k: u8) -> bool {
    (b >> k) & 1u8 == 1u8
}

/// The bit that stands for piece `i` in `bytes`.
pub open spec fn piece_bit(bytes: Seq<u8>, i: int) -> bool {
    bit_of(bytes[i / 8], (7 - i % 8) as u8)
}

/// How many bytes hold `total` pieces.
pub open spec fn byte_count(total: nat) -> nat {
    (total + 7) / 8
}

/// The content of a bitfield.
pub struct BitfieldView {
    pub bytes: Seq<u8>,
    pub total: nat,
}

impl BitfieldView {
    /// Piece `i` is there.
    pub open spec fn has(self, i: int) -> bool {
        0 <= i < self.total && piece_bit(self.bytes, i)
    }

    /// The right number of bytes, and no bit set past the last piece.
    pub open spec fn wf(self) -> bool {
        &&& self.bytes.len() == byte_count(self.total)
        &&& forall|j: int|
            self.total <= j < 8 * self.bytes.len() ==> !#[trigger] piece_bit(self.bytes, j)
    }

    /// How many of the first `n` pieces are there.
    pub open spec fn count_below(self, n: int) -> nat
        decreases n,
    {
        if n <= 0 {
            0
        } else {
            self.count_below(n - 1) + if self.has(n - 1) {
                1nat
            } else {
                0nat
            }
        }
    }

    /// How many pieces are there.
    pub open spec fn count(self) -> nat {
        self.count_below(self.total as int)
    }

    /// The first `n` pieces that are there (`want`) or missing (`!want`),
    /// in ascending order.
    pub open spec fn pieces_below(self, n: int, want: bool) -> Seq<usize>
        decreases n,
    {
        if n <= 0 {
            Seq::empty()
        } else if self.has(n - 1) == want {
            self.pieces_below(n - 1, want).push((n - 1) as usize)
        } else {
            self.pieces_below(n - 1, want)
        }
    }

    /// This bitfield with piece `index` marked as there; unchanged past
    /// the last piece.
    pub open spec fn with_piece(self, index: int) -> BitfieldView {
        if 0 <= index < self.total {
            BitfieldView {
                bytes: self.bytes.update(
                    index / 8,
                    self.bytes[index / 8] | (1u8 << ((7 - index % 8) as u8)),
                ),
                total: self.total,
            }
        } else {
            self
        }
    }

    /// Every piece is there.
    pub open spec fn complete(self) -> bool {
        forall|i: int| 0 <= i < self.total ==> #[trigger] self.has(i)
    }
}

/// Marking a piece as there adds that piece and no other.
pub proof fn lemma_with_piece(v: BitfieldView, index: int)
    requires
        v.wf(),
    ensures
        v.with_piece(index).wf(),
        v.with_piece(index).total == v.total,
        forall|i: int| #[trigger]
            v.with_piece(index).has(i) == (v.has(i) || (i == index && 0 <= index < v.total)),
{
    if 0 <= index < v.total {
        let k = (7 - index % 8) as u8;
        let w = v.with_piece(index);
        assert forall|j: int| v.total <= j < 8 * w.bytes.len() implies !#[trigger] piece_bit(w.bytes, j) by {
            let k2 = (7 - j % 8) as u8;
            if j / 8 == index / 8 {
                lemma_bit_set(v.bytes[index / 8], k, k2);
                assert(j % 8 != index % 8);
                assert(!piece_bit(v.bytes, j));
            } else {
                assert(w.bytes[j / 8] == v.bytes[j / 8]);
                assert(!piece_bit(v.bytes, j));
            }
        }
        assert forall|i: int| #[trigger] w.has(i) == (v.has(i) || i == index) by {
            if 0 <= i < v.total {
                let k2 = (7 - i % 8) as u8;
                if i / 8 == index / 8 {
                    lemma_bit_set(v.bytes[index / 8], k, k2);
                    if i != index {
                        assert(i % 8 != index % 8);
                    }
                } else {
                    assert(w.bytes[i / 8] == v.bytes[i / 8]);
                }
            }
        }
    }
}

/// The bitfield after marking each of `indexes` in turn.
pub open spec fn with_pieces(v: BitfieldView, indexes: Seq<int>) -> BitfieldView
    decreases indexes.len(),
{
    if indexes.len() == 0 {
        v
    } else {
        with_pieces(v.with_piece(indexes[0]), indexes.drop_first())
    }
}

/// The pieces of `v` that are there, as a set.
pub open spec fn present(v: BitfieldView) -> Set<int> {
    Set::new(|i: int| v.has(i))
}

proof fn lemma_count_below_set(v: BitfieldView, n: int)
    requires
        0 <= n,
    ensures
        Set::new(|i: int| 0 <= i < n && v.has(i)).finite(),
        v.count_below(n) == Set::new(|i: int| 0 <= i < n && v.has(i)).len(),
    decreases n,
{
    let s = Set::new(|i: int| 0 <= i < n && v.has(i));
    if n == 0 {
        assert(s =~= Set::<int>::empty());
    } else {
        lemma_count_below_set(v, n - 1);
        let t = Set::new(|i: int| 0 <= i < n - 1 && v.has(i));
        if v.has(n - 1) {
            assert(s =~= t.insert(n - 1));
        } else {
            assert(s =~= t);
        }
    }
}

/// Marking pieces one after another, from any well-formed bitfield: the
/// result is well formed, with the same number of pieces and bytes; it has
/// the pieces it had and those marked within range, and no others; and
/// what it counts is how many pieces it has, no more than its length.
pub proof fn lemma_with_pieces(v: BitfieldView, indexes: Seq<int>)
    requires
        v.wf(),
    ensures
        with_pieces(v, indexes).wf(),
        with_pieces(v, indexes).total == v.total,
        with_pieces(v, indexes).bytes.len() == byte_count(v.total),
        forall|i: int| #[trigger] with_pieces(v, indexes).has(i) == (v.has(i) || (indexes.contains(i)
            && 0 <= i < v.total)),
        present(with_pieces(v, indexes)).finite(),
        with_pieces(v, indexes).count() == present(with_pieces(v, indexes)).len(),
        with_pieces(v, indexes).count() <= v.total,
    decreases indexes.len(),
{
    let w = with_pieces(v, indexes);
    if indexes.len() == 0 {
    } else {
        let next = v.with_piece(indexes[0]);
        let rest = indexes.drop_first();
        lemma_with_piece(v, indexes[0]);
        lemma_with_pieces(next, rest);
        assert forall|i: int| #[trigger] w.has(i) == (v.has(i) || (indexes.contains(i) && 0 <= i
            < v.total)) by {
            if rest.contains(i) {
                let k = choose|k: int| 0 <= k < rest.len() && rest[k] == i;
                assert(indexes[k + 1] == i);
            }
            if indexes.contains(i) && i != indexes[0] {
                let k = choose|k: int| 0 <= k < indexes.len() && indexes[k] == i;
                assert(rest[k - 1] == i);
            }
            if i == indexes[0] {
                assert(indexes[0] == i);
            }
        }
    }
    lemma_count_below_set(w, w.total as int);
    assert(present(w) =~= Set::new(|i: int| 0 <= i < w.total && w.has(i)));
    lemma_count_below_bound(w, w.total as int);
}

/// The pieces listed as there (or as missing) come in ascending order, so
/// none is listed twice.
pub proof fn lemma_pieces_ascending(v: BitfieldView, n: int, want: bool)
    requires
        n <= usize::MAX,
    ensures
        forall|a: int, b: int|
            0 <= a < b < v.pieces_below(n, want).len() ==> #[trigger] v.pieces_below(n, want)[a]
                < #[trigger] v.pieces_below(n, want)[b],
    decreases n,
{
    if n > 0 {
        lemma_pieces_ascending(v, n - 1, want);
        lemma_pieces_below_bound(v, n - 1, want);
        let p = v.pieces_below(n - 1, want);
        let q = v.pieces_below(n, want);
        assert forall|a: int, b: int| 0 <= a < b < q.len() implies #[trigger] q[a] < #[trigger] q[b] by {
            assert(q[a] == p[a]);
            if b < p.len() {
                assert(q[b] == p[b]);
            }
        }
    }
}

/// Every piece is either there or missing: the pieces listed as there are
/// those that `has` finds, the missing ones are the others, and the count
/// of pieces there is the length of their list.
pub proof fn lemma_pieces_partition(v: BitfieldView, n: int, i: int)
    requires
        0 <= n <= usize::MAX,
    ensures
        v.pieces_below(n, true).len() == v.count_below(n),
        v.pieces_below(n, true).len() + v.pieces_below(n, false).len() == n,
        0 <= i < n ==> (v.pieces_below(n, true).contains(i as usize) <==> v.has(i)),
        0 <= i < n ==> (v.pieces_below(n, false).contains(i as usize) <==> !v.has(i)),
    decreases n,
{
    if n > 0 {
        lemma_pieces_partition(v, n - 1, i);
        lemma_pieces_below_bound(v, n - 1, true);
        lemma_pieces_below_bound(v, n - 1, false);
        if 0 <= i < n {
            let t = v.pieces_below(n, true);
            let f = v.pieces_below(n, false);
            if i == n - 1 {
                if v.has(i) {
                    assert(t.last() == i as usize);
                } else {
                    assert(f.last() == i as usize);
                }
                assert(!v.pieces_below(n - 1, true).contains(i as usize));
                assert(!v.pieces_below(n - 1, false).contains(i as usize));
            } else {
                let t0 = v.pieces_below(n - 1, true);
                let f0 = v.pieces_below(n - 1, false);
                if t0.contains(i as usize) {
                    let k = choose|k: int| 0 <= k < t0.len() && t0[k] == i as usize;
                    assert(t[k] == t0[k]);
                }
                if f0.contains(i as usize) {
                    let k = choose|k: int| 0 <= k < f0.len() && f0[k] == i as usize;
                    assert(f[k] == f0[k]);
                }
                if t.contains(i as usize) {
                    let k = choose|k: int| 0 <= k < t.len() && t[k] == i as usize;
                    if k < t0.len() {
                        assert(t[k] == t0[k]);
                    }
                }
                if f.contains(i as usize) {
                    let k = choose|k: int| 0 <= k < f.len() && f[k] == i as usize;
                    if k < f0.len() {
                        assert(f[k] == f0[k]);
                    }
                }
            }
        }
    }
}

/// The pieces listed as there (or as missing) among the first `n` are below `n`.
pub proof fn lemma_pieces_below_bound(v: BitfieldView, n: int, want: bool)
    requires
        n <= usize::MAX,
    ensures
        forall|k: int| 0 <= k < v.pieces_below(n, want).len() ==> 0 <= #[trigger] v.pieces_below(n, want)[k] < n,
    decreases n,
{
    if n > 0 {
        lemma_pieces_below_bound(v, n - 1, want);
        let p = v.pieces_below(n - 1, want);
        let q = v.pieces_below(n, want);
        assert forall|k: int| 0 <= k < q.len() implies 0 <= #[trigger] q[k] < n by {
            if k < p.len() {
                assert(q[k] == p[k]);
            }
        }
    }
}

/// The bitfield `bytes` gives for `total` pieces: cut or padded with zero
/// bytes to the right length, and with the bits past the last piece cleared.
pub open spec fn from_bytes_spec(bytes: Seq<u8>, total: nat) -> BitfieldView {
    BitfieldView {
        bytes: Seq::new(
            byte_count(total),
            |j: int|
                {
                    let b = if j < bytes.len() {
                        bytes[j]
                    } else {
                        0u8
                    };
                    if j == byte_count(total) - 1 && total % 8 != 0 {
                        b & (0xffu8 << ((8 - total % 8) as u8))
                    } else {
                        b
                    }
                },
        ),
        total,
    }
}

/// Which pieces a peer has.
#[derive(PartialEq, Eq, Debug)]
pub struct Bitfield {
    bytes: Vec<u8>,
    total_pieces: usize,
}

impl View for Bitfield {
    type V = BitfieldView;

    closed spec fn view(&self) -> BitfieldView {
        BitfieldView { bytes: self.bytes@, total: self.total_pieces as nat }
    }
}

proof fn lemma_bit_set(b: u8, k: u8, k2: u8)
    requires
        k < 8,
        k2 < 8,
    ensures
        bit_of(b | (1u8 << k), k2) == (k2 == k || bit_of(b, k2)),
{
    assert(((b | (1u8 << k)) >> k2) & 1u8 == 1u8 <==> (k2 == k || (b >> k2) & 1u8 == 1u8))
        by (bit_vector)
        requires
            k < 8,
            k2 < 8,
    ;
}

proof fn lemma_bit_mask(b: u8, s: u8, k: u8)
    requires
        1 <= s <= 7,
        k < 8,
    ensures
        bit_of(b & (0xffu8 << s), k) == (k >= s && bit_of(b, k)),
{
    assert(((b & (0xffu8 << s)) >> k) & 1u8 == 1u8 <==> (k >= s && (b >> k) & 1u8 == 1u8))
        by (bit_vector)
        requires
            1 <= s <= 7,
            k < 8,
    ;
}

proof fn lemma_zero_bits(k: u8)
    requires
        k < 8,
    ensures
        !bit_of(0u8, k),
{
    assert((0u8 >> k) & 1u8 != 1u8) by (bit_vector);
}

/// The number of bits set in a byte.
pub open spec fn popcount(b: u8) -> nat {
    (if bit_of(b, 0) { 1nat } else { 0nat }) + (if bit_of(b, 1) { 1nat } else { 0nat }) + (
    if bit_of(b, 2) {
        1nat
    } else {
        0nat
    }) + (if bit_of(b, 3) { 1nat } else { 0nat }) + (if bit_of(b, 4) { 1nat } else { 0nat }) + (
    if bit_of(b, 5) {
        1nat
    } else {
        0nat
    }) + (if bit_of(b, 6) { 1nat } else { 0nat }) + (if bit_of(b, 7) { 1nat } else { 0nat })
}

/// How many of the first `n` bit positions of `bytes` are set.
pub open spec fn bits_below(bytes: Seq<u8>, n: int) -> nat
    decreases n,
{
    if n <= 0 {
        0
    } else {
        bits_below(bytes, n - 1) + if piece_bit(bytes, n - 1) {
            1nat
        } else {
            0nat
        }
    }
}

proof fn lemma_bits_below_byte(bytes: Seq<u8>, m: int)
    requires
        0 <= m,
    ensures
        bits_below(bytes, 8 * m + 8) == bits_below(bytes, 8 * m) + popcount(bytes[m]),
{
    let base = 8 * m;
    assert(piece_bit(bytes, base) == bit_of(bytes[m], 7));
    assert(piece_bit(bytes, base + 1) == bit_of(bytes[m], 6));
    assert(piece_bit(bytes, base + 2) == bit_of(bytes[m], 5));
    assert(piece_bit(bytes, base + 3) == bit_of(bytes[m], 4));
    assert(piece_bit(bytes, base + 4) == bit_of(bytes[m], 3));
    assert(piece_bit(bytes, base + 5) == bit_of(bytes[m], 2));
    assert(piece_bit(bytes, base + 6) == bit_of(bytes[m], 1));
    assert(piece_bit(bytes, base + 7) == bit_of(bytes[m], 0));
    assert(bits_below(bytes, base + 1) == bits_below(bytes, base) + if piece_bit(bytes, base) {
        1nat
    } else {
        0nat
    });
    assert(bits_below(bytes, base + 2) == bits_below(bytes, base + 1) + if piece_bit(
        bytes,
        base + 1,
    ) {
        1nat
    } else {
        0nat
    });
    assert(bits_below(bytes, base + 3) == bits_below(bytes, base + 2) + if piece_bit(
        bytes,
        base + 2,
    ) {
        1nat
    } else {
        0nat
    });
    assert(bits_below(bytes, base + 4) == bits_below(bytes, base + 3) + if piece_bit(
        bytes,
        base + 3,
    ) {
        1nat
    } else {
        0nat
    });
    assert(bits_below(bytes, base + 5) == bits_below(bytes, base + 4) + if piece_bit(
        bytes,
        base + 4,
    ) {
        1nat
    } else {
        0nat
    });
    assert(bits_below(bytes, base + 6) == bits_below(bytes, base + 5) + if piece_bit(
        bytes,
        base + 5,
    ) {
        1nat
    } else {
        0nat
    });
    assert(bits_below(bytes, base + 7) == bits_below(bytes, base + 6) + if piece_bit(
        bytes,
        base + 6,
    ) {
        1nat
    } else {
        0nat
    });
}

proof fn lemma_bits_below_count(v: BitfieldView, n: int)
    requires
        0 <= n <= v.total,
        v.bytes.len() == byte_count(v.total),
    ensures
        bits_below(v.bytes, n) == v.count_below(n),
    decreases n,
{
    if n > 0 {
        lemma_bits_below_count(v, n - 1);
    }
}

proof fn lemma_bits_below_tail(v: BitfieldView, n: int)
    requires
        v.wf(),
        v.total <= n <= 8 * v.bytes.len() as int,
    ensures
        bits_below(v.bytes, n) == bits_below(v.bytes, v.total as int),
    decreases n,
{
    if n > v.total {
        lemma_bits_below_tail(v, n - 1);
        assert(!piece_bit(v.bytes, n - 1));
    }
}

proof fn lemma_bits_below_monotone(bytes: Seq<u8>, a: int, b: int)
    requires
        0 <= a <= b,
    ensures
        bits_below(bytes, a) <= bits_below(bytes, b),
    decreases b - a,
{
    if a < b {
        lemma_bits_below_monotone(bytes, a, b - 1);
    }
}

proof fn lemma_count_below_bound(v: BitfieldView, n: int)
    requires
        0 <= n,
    ensures
        v.count_below(n) <= n,
        v.count_below(n) == n <==> forall|i: int| 0 <= i < n ==> #[trigger] v.has(i),
    decreases n,
{
    if n > 0 {
        lemma_count_below_bound(v, n - 1);
        if v.count_below(n) == n {
            assert forall|i: int| 0 <= i < n implies #[trigger] v.has(i) by {
                if i < n - 1 {
                    assert(v.count_below(n - 1) == n - 1);
                }
            }
        }
    }
}

/// The number of bits set in a byte.
fn byte_popcount(b: u8) -> (r: u8)
    ensures
        r == popcount(b),
        r <= 8,
{
    let mut r: u8 = 0;
    let mut k: u8 = 0;
    while k < 8
        invariant
            k <= 8,
            r <= k,
            r as nat == (if k > 0 && bit_of(b, 0) { 1nat } else { 0nat }) + (if k > 1 && bit_of(
                b,
                1,
            ) {
                1nat
            } else {
                0nat
            }) + (if k > 2 && bit_of(b, 2) { 1nat } else { 0nat }) + (if k > 3 && bit_of(b, 3) {
                1nat
            } else {
                0nat
            }) + (if k > 4 && bit_of(b, 4) { 1nat } else { 0nat }) + (if k > 5 && bit_of(b, 5) {
                1nat
            } else {
                0nat
            }) + (if k > 6 && bit_of(b, 6) { 1nat } else { 0nat }) + (if k > 7 && bit_of(b, 7) {
                1nat
            } else {
                0nat
            }),
        decreases 8 - k,
    {
        if (b >> k) & 1u8 == 1u8 {
            r = r + 1;
        }
        k = k + 1;
    }
    r
}

impl Bitfield {
    /// Every bitfield has the right number of bytes and no bit set past its
    /// last piece.
    #[verifier::type_invariant]
    pub open spec fn well_formed(&self) -> bool {
        self@.wf()
    }

    /// A bitfield of `total_pieces` pieces, none of them there.
    pub fn new(total_pieces: usize) -> (r: Self)
        ensures
            r@.total == total_pieces,
            r@.bytes == Seq::new(byte_count(total_pieces as nat), |j: int| 0u8),
            forall|i: int| !#[trigger] r@.has(i),
    {
        let nbytes: usize = total_pieces / 8 + if total_pieces % 8 == 0 {
            0
        } else {
            1
        };
        let bytes: Vec<u8> = vec![0u8; nbytes];
        proof {
            assert forall|j: int| 0 <= j < bytes@.len() implies bytes@[j] == 0u8 by {
                assert(vstd::pervasive::cloned(0u8, bytes@[j]));
            }
            assert(bytes@ =~= Seq::new(byte_count(total_pieces as nat), |j: int| 0u8));
            assert forall|j: int| 0 <= j < 8 * bytes@.len() implies !#[trigger] piece_bit(bytes@, j) by {
                lemma_zero_bits((7 - j % 8) as u8);
            }
        }
        Self { bytes, total_pieces }
    }

    /// The bitfield that `bytes` gives for `total_pieces` pieces: cut or
    /// padded with zero bytes, with the bits past the last piece cleared.
    pub fn from_bytes(bytes: Vec<u8>, total_pieces: usize) -> (r: Self)
        ensures
            r@ == from_bytes_spec(bytes@, total_pieces as nat),
    {
        let expected: usize = total_pieces / 8 + if total_pieces % 8 == 0 {
            0
        } else {
            1
        };
        let ghost target = from_bytes_spec(bytes@, total_pieces as nat);
        let mut b = bytes;
        b.resize(expected, 0u8);
        proof {
            assert forall|j: int| bytes@.len() <= j < b@.len() implies b@[j] == 0u8 by {
                assert(vstd::pervasive::cloned(0u8, b@[j]));
            }
        }
        let trailing = total_pieces % 8;
        if trailing != 0 {
            let last = expected - 1;
            let mask: u8 = 0xffu8 << ((8 - trailing) as u8);
            let old_last = b[last];
            b.set(last, old_last & mask);
        }
        proof {
            assert(b@ =~= target.bytes);
            let v = BitfieldView { bytes: b@, total: total_pieces as nat };
            assert forall|j: int| total_pieces <= j < 8 * b@.len() implies !#[trigger] piece_bit(b@, j) by {
                let m = j / 8;
                assert(m == expected - 1);
                assert(trailing != 0);
                let s = (8 - trailing) as u8;
                let k = (7 - j % 8) as u8;
                let raw = if m < bytes@.len() { bytes@[m] } else { 0u8 };
                lemma_bit_mask(raw, s, k);
            }
        }
        Self { bytes: b, total_pieces }
    }

    pub fn as_bytes(&self) -> (r: &[u8])
        ensures
            r@ == self@.bytes,
    {
        self.bytes.as_slice()
    }

    pub fn total_pieces(&self) -> (r: usize)
        ensures
            r == self@.total,
    {
        self.total_pieces
    }

    /// Whether piece `index` is there; `false` past the last piece.
    pub fn has(&self, index: usize) -> (r: bool)
        ensures
            r == self@.has(index as int),
    {
        proof {
            use_type_invariant(self);
        }
        if index >= self.total_pieces {
            return false;
        }
        let byte_idx = index / 8;
        let bit_idx = (7 - index % 8) as u8;
        (self.bytes[byte_idx] >> bit_idx) & 1u8 == 1u8
    }

    pub fn has_piece(&self, index: PieceIndex) -> (r: bool)
        ensures
            r == self@.has(index.0 as int),
    {
        self.has(index.as_usize())
    }

    /// Marks piece `index` as there; does nothing past the last piece.
    pub fn set(&mut self, index: usize)
        ensures
            final(self)@.total == old(self)@.total,
            index < old(self)@.total ==> final(self)@.bytes == old(self)@.bytes.update(
                index as int / 8,
                old(self)@.bytes[index as int / 8] | (1u8 << ((7 - index % 8) as u8)),
            ),
            index >= old(self)@.total ==> final(self)@ == old(self)@,
            final(self)@ == old(self)@.with_piece(index as int),
            forall|i: int| #[trigger]
                final(self)@.has(i) == (old(self)@.has(i) || (i == index && index < old(self)@.total)),
    {
        proof {
            use_type_invariant(&*self);
        }
        if index >= self.total_pieces {
            return;
        }
        let byte_idx = index / 8;
        let k = (7 - index % 8) as u8;
        let ghost before = self@;
        let old_byte = self.bytes[byte_idx];
        proof {
            let after = before.bytes.update(byte_idx as int, old_byte | (1u8 << k));
            assert forall|j: int| 0 <= j < 8 * after.len() implies #[trigger] piece_bit(after, j)
                == (piece_bit(before.bytes, j) || j == index) by {
                let k2 = (7 - j % 8) as u8;
                if j / 8 == byte_idx {
                    lemma_bit_set(old_byte, k, k2);
                }
            }
        }
        let mut taken = Bitfield { bytes: Vec::new(), total_pieces: 0 };
        proof {
            assert(taken@.bytes =~= Seq::<u8>::empty());
        }
        std::mem::swap(self, &mut taken);
        let Bitfield { bytes: mut b, total_pieces } = taken;
        b.set(byte_idx, old_byte | (1u8 << k));
        *self = Bitfield { bytes: b, total_pieces };
    }

    pub fn set_piece(&mut self, index: PieceIndex)
        ensures
            final(self)@.total == old(self)@.total,
            forall|i: int| #[trigger]
                final(self)@.has(i) == (old(self)@.has(i) || (i == index.0 && index.0
                    < old(self)@.total)),
    {
        self.set(index.as_usize());
    }

    /// How many pieces are there.
    pub fn count_complete(&self) -> (r: usize)
        ensures
            r == self@.count(),
    {
        proof {
            use_type_invariant(self);
        }
        let ghost v = self@;
        let mut sum: usize = 0;
        let mut m: usize = 0;
        proof {
            lemma_bits_below_tail(v, 8 * v.bytes.len() as int);
            lemma_bits_below_count(v, v.total as int);
            lemma_count_below_bound(v, v.total as int);
        }
        while m < self.bytes.len()
            invariant
                v == self@,
                v.wf(),
                m <= v.bytes.len(),
                sum == bits_below(v.bytes, 8 * m),
                bits_below(v.bytes, 8 * v.bytes.len() as int) == v.count(),
                v.count() <= v.total,
                v.total == self.total_pieces,
            decreases v.bytes.len() - m,
        {
            proof {
                lemma_bits_below_byte(v.bytes, m as int);
                lemma_bits_below_monotone(v.bytes, 8 * m + 8, 8 * v.bytes.len() as int);
            }
            let c = byte_popcount(self.bytes[m]);
            sum = sum + c as usize;
            m = m + 1;
        }
        sum
    }

    /// Whether every piece is there (so also when there are none).
    pub fn is_complete(&self) -> (r: bool)
        ensures
            r == self@.complete(),
    {
        proof {
            lemma_count_below_bound(self@, self@.total as int);
        }
        if self.total_pieces == 0 {
            return true;
        }
        self.count_complete() == self.total_pieces
    }

    fn pieces_with(&self, want: bool) -> (r: Vec<usize>)
        ensures
            r@ == self@.pieces_below(self@.total as int, want),
    {
        let mut out: Vec<usize> = Vec::new();
        let mut i: usize = 0;
        while i < self.total_pieces
            invariant
                i <= self@.total,
                self@.total == self.total_pieces,
                out@ == self@.pieces_below(i as int, want),
            decreases self@.total - i,
        {
            if self.has(i) == want {
                out.push(i);
            }
            i = i + 1;
        }
        out
    }

    /// The pieces that are missing, in ascending order.
    pub fn missing_pieces(&self) -> (r: Vec<usize>)
        ensures
            r@ == self@.pieces_below(self@.total as int, false),
    {
        self.pieces_with(false)
    }

    /// The pieces that are there, in ascending order.
    pub fn complete_pieces(&self) -> (r: Vec<usize>)
        ensures
            r@ == self@.pieces_below(self@.total as int, true),
    {
        self.pieces_with(true)
    }

    /// "Bitfield(<pieces there>/<total pieces>)".
    pub fn debug_string(&self) -> (r: String)
        ensures
            r@ == ascii_text(
                seq![66u8, 105, 116, 102, 105, 101, 108, 100, 40] + nat_digits(self@.count())
                    + seq![47u8] + nat_digits(self@.total) + seq![41u8],
            ),
    {
        let count = self.count_complete();
        let mut out: Vec<u8> = Vec::new();
        out.push(66);
        out.push(105);
        out.push(116);
        out.push(102);
        out.push(105);
        out.push(101);
        out.push(108);
        out.push(100);
        out.push(40);
        push_decimal_u64(&mut out, count as u64);
        out.push(47);
        push_decimal_u64(&mut out, self.total_pieces as u64);
        out.push(41);
        let ghost text = seq![66u8, 105, 116, 102, 105, 101, 108, 100, 40] + nat_digits(
            self@.count(),
        ) + seq![47u8] + nat_digits(self@.total) + seq![41u8];
        proof {
            assert(out@ =~= text);
            lemma_nat_digits_shape(self@.count());
            lemma_nat_digits_shape(self@.total);
            assert forall|i: int| 0 <= i < text.len() implies #[trigger] text[i] < 128 by {
                let c = nat_digits(self@.count());
                let t = nat_digits(self@.total);
                if 9 <= i < 9 + c.len() {
                    assert(text[i] == c[i - 9]);
                } else if 10 + c.len() <= i < 10 + c.len() + t.len() {
                    assert(text[i] == t[i - 10 - c.len()]);
                }
            }
            lemma_ascii_text(text);
        }
        match string_from_utf8(out) {
            Some(s) => s,
            None => String::new(),
        }
    }
}

impl Clone for Bitfield {
    fn clone(&self) -> (r: Self)
        ensures
            r@ == self@,
    {
        proof {
            use_type_invariant(self);
        }
        Bitfield { bytes: crate::bencode::copy_bytes(self.bytes.as_slice()), total_pieces: self.total_pieces }
    }
}

} // verus!
