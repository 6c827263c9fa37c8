//! Labels of the history tree: fixed 256-bit values of which only the first
//! `len` bits are significant, with longest-common-prefix and directional
//! descent over them.

use vstd::prelude::*;

verus! {

/// Which child slot of a node a descent step selects: `Some(0)` is the left
/// slot (next bit 0), `Some(1)` the right slot (next bit 1), `None` means the
/// descent ends at the node itself.
pub type Direction = Option<usize>;

/// A label: a 256-bit value of which the leading `len` bits are significant.
#[derive(Clone, Copy, Debug, Eq, PartialEq, Hash)]
pub struct NodeLabel {
    /// The bit material; bits are counted from the most significant bit of
    /// `val[0]` downward.
    pub val: [u8; 32],
    /// How many leading bits of `val` are significant; at most 256.
    pub len: u32,
}

/// Bit `t` of a byte, counting from the most significant bit.
pub open spec fn byte_bit(b: u8, t: u8) -> bool {
    (b >> ((7 - t) as u8)) & 1u8 == 1u8
}

/// Bit `i` of a 32-byte array, counting from the most significant bit of the
/// first byte.
pub open spec fn bit_of(v: Seq<u8>, i: int) -> bool {
    byte_bit(v[i / 8], (i % 8) as u8)
}

impl View for NodeLabel {
    type V = Seq<bool>;

    /// A label denotes its sequence of significant bits.
    open spec fn view(&self) -> Seq<bool> {
        Seq::new(self.len as nat, |i: int| bit_of(self.val@, i))
    }
}

impl NodeLabel {
    /// A label is canonical when its insignificant bits are all zero, so that
    /// two labels with the same meaning are equal as values.
    pub open spec fn is_canonical(self) -> bool {
        &&& self.len <= 256
        &&& forall|i: int| self.len <= i < 256 ==> !bit_of(self.val@, i)
    }
}

/// The slot selected by the bit of `l` at position `k`, or `None` when `l`
/// ends at `k`.
pub open spec fn dir_after(l: Seq<bool>, k: int) -> Direction {
    if k >= l.len() {
        None
    } else if l[k] {
        Some(1usize)
    } else {
        Some(0usize)
    }
}

/// `p` is a prefix of `l`.
pub open spec fn is_prefix(p: Seq<bool>, l: Seq<bool>) -> bool {
    p.len() <= l.len() && p == l.take(p.len() as int)
}

proof fn lemma_masked_bit(b: u8, keep: u8, mask: u8, t: u8)
    by (bit_vector)
    requires
        keep <= 8,
        t < 8,
        mask == if keep == 0 {
            0u8
        } else if keep >= 8 {
            0xffu8
        } else {
            (0xffu8 << ((8 - keep) as u8)) as u8
        },
    ensures
        byte_bit(mask & b, t) == (t < keep && byte_bit(b, t)),
{
}

/// Two bytes with the same eight bits are the same byte.
proof fn lemma_byte_from_bits(a: u8, b: u8)
    requires
        forall|t: u8| t < 8 ==> #[trigger] byte_bit(a, t) == byte_bit(b, t),
    ensures
        a == b,
{
    assert(byte_bit(a, 0) == byte_bit(b, 0));
    assert(byte_bit(a, 1) == byte_bit(b, 1));
    assert(byte_bit(a, 2) == byte_bit(b, 2));
    assert(byte_bit(a, 3) == byte_bit(b, 3));
    assert(byte_bit(a, 4) == byte_bit(b, 4));
    assert(byte_bit(a, 5) == byte_bit(b, 5));
    assert(byte_bit(a, 6) == byte_bit(b, 6));
    assert(byte_bit(a, 7) == byte_bit(b, 7));
    assert(a == b) by (bit_vector)
        requires
            byte_bit(a, 0) == byte_bit(b, 0),
            byte_bit(a, 1) == byte_bit(b, 1),
            byte_bit(a, 2) == byte_bit(b, 2),
            byte_bit(a, 3) == byte_bit(b, 3),
            byte_bit(a, 4) == byte_bit(b, 4),
            byte_bit(a, 5) == byte_bit(b, 5),
            byte_bit(a, 6) == byte_bit(b, 6),
            byte_bit(a, 7) == byte_bit(b, 7),
    ;
}

impl NodeLabel {
    /// Builds the label with the first `len` bits of `val`; the remaining
    /// bits of the stored value are cleared so that equal labels are equal
    /// as values.
    pub fn new(val: [u8; 32], len: u32) -> (r: NodeLabel)
        requires
            len <= 256,
        ensures
            r.len == len,
            r.is_canonical(),
            forall|i: int| 0 <= i < len ==> bit_of(r.val@, i) == bit_of(val@, i),
            r@ == Seq::new(len as nat, |i: int| bit_of(val@, i)),
    {
        let mut out: [u8; 32] = [0u8; 32];
        proof {
            assert forall|i: int| 0 <= i < 256 implies !bit_of(out@, i) by {
                let t = (i % 8) as u8;
                assert(t < 8 ==> !byte_bit(0u8, t)) by (bit_vector);
            }
        }
        let mut j: usize = 0;
        while j < 32
            invariant
                j <= 32,
                len <= 256,
                forall|i: int| 0 <= i < 8 * j ==> bit_of(out@, i) == (i < len && bit_of(val@, i)),
                forall|i: int| 8 * j <= i < 256 ==> !bit_of(out@, i),
            decreases 32 - j,
        {
            let keep: u32 = if len > 8 * (j as u32) {
                let rest = len - 8 * (j as u32);
                if rest >= 8 {
                    8
                } else {
                    rest
                }
            } else {
                0
            };
            let mask: u8 = if keep == 0 {
                0u8
            } else if keep >= 8 {
                0xffu8
            } else {
                0xffu8 << ((8 - keep) as u8)
            };
            let ghost old_out = out@;
            out[j] = mask & val[j];
            proof {
                assert forall|i: int| 0 <= i < 256 implies bit_of(out@, i) == (if i / 8 == j {
                    (i - 8 * j < keep) && bit_of(val@, i)
                } else {
                    bit_of(old_out, i)
                }) by {
                    if i / 8 == j {
                        lemma_masked_bit(val@[j as int], keep as u8, mask, (i % 8) as u8);
                    }
                }
                assert forall|i: int| 0 <= i < 8 * (j + 1) implies bit_of(out@, i) == (i < len
                    && bit_of(val@, i)) by {
                    if 8 * j <= i {
                        assert(i / 8 == j);
                        assert((i - 8 * j < keep) == (i < len));
                    }
                }
                assert forall|i: int| 8 * (j + 1) <= i < 256 implies !bit_of(out@, i) by {
                    assert(i / 8 != j);
                }
            }
            j += 1;
        }
        let r = NodeLabel { val: out, len };
        proof {
            assert(r@ =~= Seq::new(len as nat, |i: int| bit_of(val@, i)));
        }
        r
    }

    /// The root label: no significant bits.
    pub fn root() -> (r: NodeLabel)
        ensures
            r.len == 0,
            r.is_canonical(),
            r@ == Seq::<bool>::empty(),
            r.val@ == Seq::new(32, |i: int| 0u8),
    {
        let r = NodeLabel { val: [0u8; 32], len: 0 };
        proof {
            assert forall|i: int| 0 <= i < 256 implies !bit_of(r.val@, i) by {
                let t = (i % 8) as u8;
                assert(t < 8 ==> !byte_bit(0u8, t)) by (bit_vector);
            }
            assert(r@ =~= Seq::<bool>::empty());
            assert(r.val@ =~= Seq::new(32, |i: int| 0u8));
        }
        r
    }

    /// Reads the significant bit at `index`.
    pub fn get_bit_at(&self, index: u32) -> (b: bool)
        requires
            index < 256,
        ensures
            b == bit_of(self.val@, index as int),
    {
        let byte = self.val[(index / 8) as usize];
        ((byte >> ((7 - index % 8) as u8)) & 1u8) == 1u8
    }

    /// Whether the two labels are equal as values: same length and same bit
    /// material.
    pub fn label_eq(&self, other: &NodeLabel) -> (r: bool)
        ensures
            r == (self.len == other.len && self.val@ == other.val@),
    {
        if self.len != other.len {
            return false;
        }
        let mut j: usize = 0;
        while j < 32
            invariant
                j <= 32,
                forall|i: int| 0 <= i < j ==> self.val@[i] == other.val@[i],
            decreases 32 - j,
        {
            if self.val[j] != other.val[j] {
                return false;
            }
            j += 1;
        }
        proof {
            assert(self.val@ =~= other.val@);
        }
        true
    }

    /// The label made of the first `plen` bits of this label.
    pub fn get_prefix(&self, plen: u32) -> (r: NodeLabel)
        requires
            plen <= 256,
        ensures
            r.len == plen,
            r.is_canonical(),
            plen <= self.len ==> r@ == self@.take(plen as int),
    {
        let r = NodeLabel::new(self.val, plen);
        proof {
            if plen <= self.len {
                assert(r@ =~= self@.take(plen as int));
            }
        }
        r
    }

    /// The longest common prefix of this label and `other`, together with
    /// the direction each of the two labels takes immediately after it
    /// (`None` when the prefix is the whole label).
    pub fn get_longest_common_prefix_and_dirs(&self, other: NodeLabel) -> (r: (
        NodeLabel,
        Direction,
        Direction,
    ))
        requires
            self.is_canonical(),
            other.is_canonical(),
        ensures
            r.0.is_canonical(),
            is_prefix(r.0@, self@),
            is_prefix(r.0@, other@),
            r.0.len == r.0@.len(),
            r.0@.len() < self@.len() && r.0@.len() < other@.len() ==> self@[r.0@.len() as int]
                != other@[r.0@.len() as int],
            r.1 == dir_after(other@, r.0@.len() as int),
            r.2 == dir_after(self@, r.0@.len() as int),
    {
        let shorter: u32 = if self.len < other.len {
            self.len
        } else {
            other.len
        };
        let mut k: u32 = 0;
        while k < shorter && self.get_bit_at(k) == other.get_bit_at(k)
            invariant
                k <= shorter,
                shorter <= self.len,
                shorter <= other.len,
                self.len <= 256,
                other.len <= 256,
                forall|i: int| 0 <= i < k ==> bit_of(self.val@, i) == bit_of(other.val@, i),
            decreases shorter - k,
        {
            k += 1;
        }
        let p = self.get_prefix(k);
        proof {
            assert(p@ =~= self@.take(k as int));
            assert(p@ =~= other@.take(k as int));
        }
        let dir_other: Direction = if k == other.len {
            None
        } else if other.get_bit_at(k) {
            Some(1usize)
        } else {
            Some(0usize)
        };
        let dir_self: Direction = if k == self.len {
            None
        } else if self.get_bit_at(k) {
            Some(1usize)
        } else {
            Some(0usize)
        };
        (p, dir_other, dir_self)
    }
}

/// The first 64 bits of the array are the big-endian bits of `x`; the rest
/// are zero.
pub fn byte_arr_from_u64(x: u64) -> (r: [u8; 32])
    ensures
        forall|i: int| 0 <= i < 64 ==> bit_of(r@, i) == ((x >> ((63 - i) as u64)) & 1u64 == 1u64),
        forall|i: int| 64 <= i < 256 ==> !bit_of(r@, i),
{
    let mut out: [u8; 32] = [0u8; 32];
    let mut j: usize = 0;
    while j < 8
        invariant
            j <= 8,
            forall|k: int| 0 <= k < j ==> out@[k] == (x >> ((56 - 8 * k) as u64)) as u8,
            forall|k: int| j <= k < 32 ==> out@[k] == 0u8,
        decreases 8 - j,
    {
        let shift: u32 = 56 - 8 * (j as u32);
        out[j] = (x >> shift) as u8;
        j += 1;
    }
    proof {
        assert forall|i: int| 0 <= i < 64 implies bit_of(out@, i) == ((x >> ((63 - i) as u64))
            & 1u64 == 1u64) by {
            let jj = (i / 8) as u64;
            let t = (i % 8) as u8;
            assert(out@[i / 8] == (x >> ((56 - 8 * jj) as u64)) as u8);
            assert(i == 8 * (jj as int) + (t as int));
            assert(jj < 8 && t < 8 ==> byte_bit((x >> ((56 - 8 * jj) as u64)) as u8, t) == ((x
                >> ((63 - (8 * jj + t)) as u64)) & 1u64 == 1u64)) by (bit_vector);
        }
        assert forall|i: int| 64 <= i < 256 implies !bit_of(out@, i) by {
            let t = (i % 8) as u8;
            assert(out@[i / 8] == 0u8);
            assert(t < 8 ==> !byte_bit(0u8, t)) by (bit_vector);
        }
    }
    out
}

/// The all-zero label of length 0, used where a child slot has no label to
/// report.
pub fn empty_label() -> (r: NodeLabel)
    ensures
        r.len == 0,
        r.is_canonical(),
        r@ == Seq::<bool>::empty(),
        r.val@ == Seq::new(32, |i: int| 0u8),
{
    NodeLabel::root()
}

/// The longest common prefix of two bit sequences.
pub open spec fn lcp_of(a: Seq<bool>, b: Seq<bool>) -> Seq<bool>
    decreases a.len(),
{
    if a.len() == 0 || b.len() == 0 || a[0] != b[0] {
        Seq::empty()
    } else {
        seq![a[0]] + lcp_of(a.skip(1), b.skip(1))
    }
}

/// A common prefix after which the two sequences part is their longest
/// common prefix.
pub proof fn lemma_lcp_of_characterization(a: Seq<bool>, b: Seq<bool>, p: Seq<bool>)
    requires
        is_prefix(p, a),
        is_prefix(p, b),
        p.len() < a.len(),
        p.len() < b.len(),
        a[p.len() as int] != b[p.len() as int],
    ensures
        lcp_of(a, b) == p,
    decreases p.len(),
{
    if p.len() == 0 {
        assert(a[0] != b[0]);
        assert(lcp_of(a, b) == Seq::<bool>::empty());
        assert(p =~= Seq::<bool>::empty());
    } else {
        assert(a[0] == p[0]) by {
            assert(a.take(p.len() as int)[0] == a[0]);
        }
        assert(b[0] == p[0]) by {
            assert(b.take(p.len() as int)[0] == b[0]);
        }
        let a1 = a.skip(1);
        let b1 = b.skip(1);
        let p1 = p.skip(1);
        assert(is_prefix(p1, a1)) by {
            assert(a1.take(p1.len() as int) =~= p1);
        }
        assert(is_prefix(p1, b1)) by {
            assert(b1.take(p1.len() as int) =~= p1);
        }
        assert(a1[p1.len() as int] == a[p.len() as int]);
        assert(b1[p1.len() as int] == b[p.len() as int]);
        lemma_lcp_of_characterization(a1, b1, p1);
        assert(lcp_of(a, b) == seq![a[0]] + lcp_of(a1, b1));
        assert(seq![p[0]] + p1 =~= p);
    }
}

/// Equal bit sequences of canonical labels make equal labels.
pub proof fn lemma_canonical_label_eq(a: NodeLabel, b: NodeLabel)
    requires
        a.is_canonical(),
        b.is_canonical(),
        a@ == b@,
    ensures
        a == b,
{
    assert(a@.len() == a.len as nat);
    assert(b@.len() == b.len as nat);
    assert(a.len == b.len);
    assert forall|j: int| 0 <= j < 32 implies a.val@[j] == b.val@[j] by {
        assert forall|t: u8| t < 8 implies #[trigger] byte_bit(a.val@[j], t) == byte_bit(
            b.val@[j],
            t,
        ) by {
            let i = 8 * j + (t as int);
            assert(i / 8 == j && i % 8 == t as int);
            if i < a.len {
                assert(a@[i] == bit_of(a.val@, i));
                assert(b@[i] == bit_of(b.val@, i));
            } else {
                assert(!bit_of(a.val@, i));
                assert(!bit_of(b.val@, i));
            }
        }
        lemma_byte_from_bits(a.val@[j], b.val@[j]);
    }
    assert(a.val =~= b.val);
}

} // verus!
