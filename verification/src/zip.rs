//! Bit paths for a compression tree: a 256-bit quantity built from two
//! halves, shifted bit by bit, and the left/right choice lists it encodes.
//! The lowest bit is the first choice; shifting moves along the path.
use vstd::multiset::Multiset;
use vstd::prelude::*;

verus! {

/// The lowest bit selects the right child; everything else selects the left.
#[derive(Clone, Debug, Copy, PartialEq, Eq, Structural)]
pub enum Choice {
    Left,
    Right,
}

/// A 256-bit path, high half first.
#[derive(Debug, PartialEq, Clone, Copy)]
pub struct EncodedTreePath(pub u128, pub u128);

/// The number a path stands for.
pub open spec fn path_value(p: EncodedTreePath) -> nat {
    (p.0 as nat) * 0x100000000000000000000000000000000nat + (p.1 as nat)
}

/// One left shift: the top bit of the low half moves into the high half, the
/// top bit of the high half falls off.
pub open spec fn spec_shl1(p: EncodedTreePath) -> EncodedTreePath {
    EncodedTreePath(
        (p.0 << 1) | (if p.1 & (1u128 << 127) != 0 {
            1u128
        } else {
            0u128
        }),
        p.1 << 1,
    )
}

/// One right shift: the bottom bit of the high half moves into the low half,
/// the bottom bit of the low half falls off.
pub open spec fn spec_shr1(p: EncodedTreePath) -> EncodedTreePath {
    EncodedTreePath(
        p.0 >> 1,
        (p.1 >> 1) | (if p.0 & 1u128 != 0 {
            1u128 << 127
        } else {
            0u128
        }),
    )
}

/// Shifting left `k` times.
pub open spec fn spec_shl(p: EncodedTreePath, k: nat) -> EncodedTreePath
    decreases k,
{
    if k == 0 {
        p
    } else {
        spec_shl1(spec_shl(p, (k - 1) as nat))
    }
}

/// Shifting right `k` times.
pub open spec fn spec_shr(p: EncodedTreePath, k: nat) -> EncodedTreePath
    decreases k,
{
    if k == 0 {
        p
    } else {
        spec_shr1(spec_shr(p, (k - 1) as nat))
    }
}

/// A right shift halves the value, so walking a path ends.
pub proof fn lemma_shr1_halves(p: EncodedTreePath)
    ensures
        path_value(spec_shr1(p)) == path_value(p) / 2,
{
    let h = p.0;
    let l = p.1;
    assert(h >> 1 == h / 2) by (bit_vector);
    assert(l >> 1 == l / 2) by (bit_vector);
    assert((h & 1 != 0) == (h % 2 == 1)) by (bit_vector);
    assert(l >> 1 < 0x80000000000000000000000000000000) by (bit_vector);
    let hv = h as nat;
    let lv = l as nat;
    let m = 0x100000000000000000000000000000000nat;
    let carry: nat = if h & 1 != 0 {
        1
    } else {
        0
    };
    if h & 1 != 0 {
        assert((l >> 1) | (1u128 << 127) == (l >> 1) + 0x80000000000000000000000000000000)
            by (bit_vector);
    } else {
        assert((l >> 1) | 0 == (l >> 1)) by (bit_vector);
    }
    assert(path_value(spec_shr1(p)) == (hv / 2) * m + carry * (m / 2) + lv / 2);
    assert(carry == hv % 2);
    assert((hv * m + lv) / 2 == (hv / 2) * m + (hv % 2) * (m / 2) + lv / 2) by (nonlinear_arith)
        requires
            m == 0x100000000000000000000000000000000nat,
            lv < m,
    ;
}

impl Choice {
    /// The choice the lowest bit of `byte` encodes.
    pub fn from_bit(byte: u8) -> (r: Choice)
        ensures
            r == (if byte & 1 == 1 {
                Choice::Right
            } else {
                Choice::Left
            }),
    {
        if byte & 1 == 1 {
            Choice::Right
        } else {
            Choice::Left
        }
    }

    /// The bit encoding this choice.
    pub fn to_bit(&self) -> (r: u8)
        ensures
            r == spec_bit(*self),
    {
        match self {
            Choice::Left => 0,
            Choice::Right => 1,
        }
    }

    /// Packs a choice list into a path, first choice in the lowest bit.
    pub fn serialize(choices: Vec<Choice>) -> (r: EncodedTreePath)
        ensures
            r == spec_serialize(choices@),
    {
        let mut bytes = EncodedTreePath::new();
        let mut i: usize = choices.len();
        while i > 0
            invariant
                0 <= i <= choices@.len(),
                bytes == spec_serialize(choices@.skip(i as int)),
            decreases i,
        {
            i = i - 1;
            let ghost bytes_pre = bytes;
            let bit = choices[i].to_bit();
            bytes = bytes.shl(1).bitor(EncodedTreePath::from_byte(bit));
            proof {
                assert(spec_shl(bytes_pre, 0) == bytes_pre);
                assert(spec_shl(bytes_pre, 1) == spec_shl1(bytes_pre));
                assert(choices@.skip(i as int)[0] == choices@[i as int]);
                assert(choices@.skip(i as int).skip(1) =~= choices@.skip(i + 1));
            }
        }
        proof {
            assert(choices@.skip(0) =~= choices@);
        }
        bytes
    }

    /// Unpacks a path into its choice list; the zero path reads as a single
    /// left turn.
    pub fn deserialize(bytes: EncodedTreePath) -> (r: Vec<Choice>)
        ensures
            r@ == spec_deserialize(bytes),
    {
        if bytes.is_zero() {
            let mut single: Vec<Choice> = Vec::new();
            single.push(Choice::Left);
            proof {
                assert(single@ =~= seq![Choice::Left]);
            }
            return single;
        }
        let mut rest = bytes;
        let mut choices: Vec<Choice> = Vec::new();
        proof {
            assert(Seq::<Choice>::empty() + spec_path_choices(bytes) =~= spec_path_choices(bytes));
        }
        while !rest.is_zero()
            invariant
                spec_deserialize(bytes) == choices@ + spec_path_choices(rest),
            decreases path_value(rest),
        {
            let ghost before = choices@;
            let ghost rest_pre = rest;
            let low = rest.lowest_byte();
            proof {
                let lv = rest_pre.1;
                assert((low & 1 == 1) == (lv & 1 == 1)) by (bit_vector)
                    requires
                        low == lv as u8,
                ;
            }
            choices.push(Choice::from_bit(low));
            rest = rest.shr(1);
            proof {
                assert(spec_shr(rest_pre, 0) == rest_pre);
                assert(spec_shr(rest_pre, 1) == spec_shr1(rest_pre));
                lemma_shr1_halves(rest_pre);
                assert(path_value(rest_pre) > 0) by (nonlinear_arith)
                    requires
                        path_value(rest_pre) == (rest_pre.0 as nat)
                            * 0x100000000000000000000000000000000nat + (rest_pre.1 as nat),
                        !(rest_pre.0 == 0 && rest_pre.1 == 0),
                ;
                assert(rest == spec_shr1(rest_pre));
                assert(spec_path_choices(rest_pre) == seq![spec_path_choices(rest_pre)[0]]
                    + spec_path_choices(rest));
                assert(choices@ + spec_path_choices(rest) =~= before + spec_path_choices(rest_pre));
            }
        }
        proof {
            assert(choices@ + spec_path_choices(rest) =~= choices@);
        }
        choices
    }
}

/// The bit for a choice.
pub open spec fn spec_bit(c: Choice) -> u8 {
    match c {
        Choice::Left => 0,
        Choice::Right => 1,
    }
}

/// The path packing a choice list, first choice lowest.
pub open spec fn spec_serialize(choices: Seq<Choice>) -> EncodedTreePath
    decreases choices.len(),
{
    if choices.len() == 0 {
        EncodedTreePath(0, 0)
    } else {
        let rest = spec_serialize(choices.skip(1));
        EncodedTreePath(
            spec_shl1(rest).0 | 0,
            spec_shl1(rest).1 | (spec_bit(choices[0]) as u128),
        )
    }
}

/// The choices a non-zero path holds, lowest bit first.
pub open spec fn spec_path_choices(p: EncodedTreePath) -> Seq<Choice>
    decreases path_value(p),
    via spec_path_choices_dec
{
    if p.0 == 0 && p.1 == 0 {
        Seq::empty()
    } else {
        seq![
            if p.1 & 1 == 1 {
                Choice::Right
            } else {
                Choice::Left
            },
        ] + spec_path_choices(spec_shr1(p))
    }
}

#[via_fn]
proof fn spec_path_choices_dec(p: EncodedTreePath) {
    if !(p.0 == 0 && p.1 == 0) {
        lemma_shr1_halves(p);
        assert(path_value(p) > 0) by (nonlinear_arith)
            requires
                path_value(p) == (p.0 as nat) * 0x100000000000000000000000000000000nat + (p.1 as nat),
                !(p.0 == 0 && p.1 == 0),
        ;
    }
}

/// What a path deserializes to: its choices, or one left turn for zero.
pub open spec fn spec_deserialize(p: EncodedTreePath) -> Seq<Choice> {
    if p.0 == 0 && p.1 == 0 {
        seq![Choice::Left]
    } else {
        spec_path_choices(p)
    }
}

/// The big-endian value of a byte string.
pub open spec fn be_val(s: Seq<u8>) -> nat
    decreases s.len(),
{
    if s.len() == 0 {
        0
    } else {
        be_val(s.drop_last()) * 256 + (s.last() as nat)
    }
}

proof fn lemma_be_val_bound(s: Seq<u8>)
    ensures
        be_val(s) < pow256(s.len()),
    decreases s.len(),
{
    if s.len() > 0 {
        lemma_be_val_bound(s.drop_last());
        assert(be_val(s.drop_last()) * 256 + (s.last() as nat) < pow256(s.len()))
            by (nonlinear_arith)
            requires
                be_val(s.drop_last()) < pow256((s.len() - 1) as nat),
                (s.last() as nat) < 256,
                pow256(s.len()) == 256 * pow256((s.len() - 1) as nat),
        ;
    }
}

proof fn lemma_pow256_mono(a: nat, b: nat)
    requires
        a <= b,
    ensures
        1 <= pow256(a) <= pow256(b),
    decreases b,
{
    if a < b {
        lemma_pow256_mono(a, (b - 1) as nat);
        assert(pow256((b - 1) as nat) <= 256 * pow256((b - 1) as nat)) by (nonlinear_arith)
            requires
                pow256((b - 1) as nat) >= 1,
        ;
    } else if a == b && a == 0 {
    } else {
        lemma_pow256_mono((a - 1) as nat, (b - 1) as nat);
        assert(pow256((b - 1) as nat) <= 256 * pow256((b - 1) as nat)) by (nonlinear_arith)
            requires
                pow256((b - 1) as nat) >= 1,
        ;
    }
}

impl EncodedTreePath {
    pub fn new() -> (r: Self)
        ensures
            r == EncodedTreePath(0, 0),
    {
        EncodedTreePath(0, 0)
    }

    pub fn from_byte(byte: u8) -> (r: Self)
        ensures
            r == EncodedTreePath(0, byte as u128),
    {
        EncodedTreePath(0, byte as u128)
    }

    /// The path whose value the 32 bytes spell, most significant first.
    pub fn from_bytes(bytes: [u8; 32]) -> (r: Self)
        ensures
            r.0 == be_val(bytes@.take(16)),
            r.1 == be_val(bytes@.skip(16)),
    {
        let mut high: u128 = 0;
        let mut i: usize = 0;
        while i < 16
            invariant
                0 <= i <= 16,
                high == be_val(bytes@.take(i as int)),
            decreases 16 - i,
        {
            proof {
                lemma_pow256_facts();
                lemma_be_val_bound(bytes@.take(i as int));
                lemma_pow256_mono(i as nat, 15);
                assert(bytes@.take(i + 1).drop_last() =~= bytes@.take(i as int));
                assert(bytes@.take(i + 1).last() == bytes@[i as int]);
                assert(high * 256 + bytes@[i as int] < 0x100000000000000000000000000000000nat)
                    by (nonlinear_arith)
                    requires
                        high < 0x1000000000000000000000000000000nat,
                        bytes@[i as int] < 256,
                ;
            }
            high = high * 256 + (bytes[i] as u128);
            i = i + 1;
        }
        let mut low: u128 = 0;
        let mut j: usize = 16;
        while j < 32
            invariant
                16 <= j <= 32,
                low == be_val(bytes@.skip(16).take(j - 16)),
            decreases 32 - j,
        {
            proof {
                lemma_pow256_facts();
                lemma_be_val_bound(bytes@.skip(16).take(j - 16));
                lemma_pow256_mono((j - 16) as nat, 15);
                assert(bytes@.skip(16).take(j - 16 + 1).drop_last() =~= bytes@.skip(16).take(
                    j - 16,
                ));
                assert(bytes@.skip(16).take(j - 16 + 1).last() == bytes@[j as int]);
                assert(low * 256 + bytes@[j as int] < 0x100000000000000000000000000000000nat)
                    by (nonlinear_arith)
                    requires
                        low < 0x1000000000000000000000000000000nat,
                        bytes@[j as int] < 256,
                ;
            }
            low = low * 256 + (bytes[j] as u128);
            j = j + 1;
        }
        proof {
            assert(bytes@.take(16) =~= bytes@.take(16));
            assert(bytes@.skip(16).take(16) =~= bytes@.skip(16));
        }
        EncodedTreePath(high, low)
    }

    /// The 32 bytes spelling the path's value, most significant first.
    pub fn to_bytes(&self) -> (r: Vec<u8>)
        ensures
            r@.len() == 32,
            be_val(r@.take(16)) == self.0,
            be_val(r@.skip(16)) == self.1,
    {
        let mut out = be_bytes(self.0);
        let low = be_bytes(self.1);
        let ghost high_part = out@;
        let mut k: usize = 0;
        while k < 16
            invariant
                0 <= k <= 16,
                low@.len() == 16,
                out@ == high_part + low@.take(k as int),
                high_part.len() == 16,
            decreases 16 - k,
        {
            out.push(low[k]);
            proof {
                assert(out@ =~= high_part + low@.take(k + 1));
            }
            k = k + 1;
        }
        proof {
            assert(low@.take(16) =~= low@);
            assert(out@.take(16) =~= high_part);
            assert(out@.skip(16) =~= low@);
        }
        out
    }

    /// Nothing is set.
    pub fn is_zero(&self) -> (r: bool)
        ensures
            r == (self.0 == 0 && self.1 == 0),
    {
        self.0 == 0 && self.1 == 0
    }

    /// The low byte of the path: where the next choice sits.
    pub fn lowest_byte(&self) -> (r: u8)
        ensures
            r == self.1 as u8,
    {
        #[verifier::truncate] (self.1 as u8)
    }

    /// The path shifted left `shift` bits; each step doubles the value modulo
    /// two to the 256th.
    pub fn shl(self, shift: u8) -> (r: Self)
        ensures
            r == spec_shl(self, shift as nat),
    {
        let mut high = self.0;
        let mut low = self.1;
        let highest: u128 = 1u128 << 127;
        let mut n: u8 = 0;
        while n < shift
            invariant
                0 <= n <= shift,
                highest == 1u128 << 127,
                EncodedTreePath(high, low) == spec_shl(self, n as nat),
            decreases shift - n,
        {
            let overflow: u128 = if low & highest == 0 {
                0
            } else {
                1
            };
            high = (high << 1) | overflow;
            low = low << 1;
            n = n + 1;
        }
        EncodedTreePath(high, low)
    }

    /// The path shifted right `shift` bits; each step halves the value.
    pub fn shr(self, shift: u8) -> (r: Self)
        ensures
            r == spec_shr(self, shift as nat),
    {
        let mut high = self.0;
        let mut low = self.1;
        let lowest: u128 = 1;
        let mut n: u8 = 0;
        while n < shift
            invariant
                0 <= n <= shift,
                lowest == 1u128,
                EncodedTreePath(high, low) == spec_shr(self, n as nat),
            decreases shift - n,
        {
            let underflow: u128 = if high & lowest == 0 {
                0
            } else {
                1u128 << 127
            };
            high = high >> 1;
            low = (low >> 1) | underflow;
            n = n + 1;
        }
        EncodedTreePath(high, low)
    }

    /// Both halves joined bitwise.
    pub fn bitor(self, rhs: Self) -> (r: Self)
        ensures
            r == EncodedTreePath(self.0 | rhs.0, self.1 | rhs.1),
    {
        EncodedTreePath(self.0 | rhs.0, self.1 | rhs.1)
    }

    /// Both halves masked bitwise.
    pub fn bitand(self, rhs: Self) -> (r: Self)
        ensures
            r == EncodedTreePath(self.0 & rhs.0, self.1 & rhs.1),
    {
        EncodedTreePath(self.0 & rhs.0, self.1 & rhs.1)
    }
}

/// The 16 big-endian bytes of one half.
fn be_bytes(x: u128) -> (r: Vec<u8>)
    ensures
        r@.len() == 16,
        be_val(r@) == x,
{
    let mut rest = x;
    let mut digits: Vec<u8> = Vec::new();
    let mut i: usize = 0;
    proof {
        lemma_pow256_facts();
        assert(be_val(digits@) == 0);
        assert(be_val(digits@) * pow256(16) == 0) by (nonlinear_arith)
            requires
                be_val(digits@) == 0,
        ;
    }
    while i < 16
        invariant
            0 <= i <= 16,
            digits@.len() == i,
            be_val(digits@) * pow256((16 - i) as nat) + rest == x,
            rest < pow256((16 - i) as nat),
        decreases 16 - i,
    {
        proof {
            lemma_pow256_facts();
            assert(pow256((16 - i) as nat) == pow256((16 - i - 1) as nat) * 256);
        }
        let byte_div: u128 = pow256_exec((16 - (i + 1)) as u8);
        let d = rest / byte_div;
        proof {
            assert(rest / byte_div < 256 && rest % byte_div < byte_div && rest == (rest / byte_div)
                * byte_div + rest % byte_div) by (nonlinear_arith)
                requires
                    byte_div > 0,
                    rest < byte_div * 256,
            ;
        }
        let trunc = #[verifier::truncate] (d as u8);
        let ghost before = digits@;
        digits.push(trunc);
        proof {
            assert(digits@.drop_last() =~= before);
            assert(be_val(digits@) == be_val(before) * 256 + (digits@.last() as nat));
            assert((be_val(before) * 256 + (d as nat)) * pow256((16 - i - 1) as nat) == be_val(
                before,
            ) * (pow256((16 - i - 1) as nat) * 256) + (d as nat) * pow256((16 - i - 1) as nat))
                by (nonlinear_arith);
        }
        rest = rest % byte_div;
        i = i + 1;
    }
    proof {
        assert(pow256(0) == 1);
        assert(rest == 0);
        assert(be_val(digits@) * 1 == be_val(digits@)) by (nonlinear_arith);
    }
    digits
}

/// 256 to the `n`th.
pub open spec fn pow256(n: nat) -> nat
    decreases n,
{
    if n == 0 {
        1
    } else {
        256 * pow256((n - 1) as nat)
    }
}

proof fn lemma_pow256_facts()
    ensures
        forall|n: nat| n <= 16 ==> #[trigger] pow256(n) == spec_pow256_table(n),
{
    assert forall|n: nat| n <= 16 implies #[trigger] pow256(n) == spec_pow256_table(n) by {
        lemma_pow256_unfold(n);
    }
}

proof fn lemma_pow256_unfold(n: nat)
    requires
        n <= 16,
    ensures
        pow256(n) == spec_pow256_table(n),
    decreases n,
{
    if n > 0 {
        lemma_pow256_unfold((n - 1) as nat);
    }
}

/// The powers of 256 up to the sixteenth, written out.
pub open spec fn spec_pow256_table(n: nat) -> nat {
    if n == 0 {
        1
    } else if n == 1 {
        0x100
    } else if n == 2 {
        0x10000
    } else if n == 3 {
        0x1000000
    } else if n == 4 {
        0x100000000
    } else if n == 5 {
        0x10000000000
    } else if n == 6 {
        0x1000000000000
    } else if n == 7 {
        0x100000000000000
    } else if n == 8 {
        0x10000000000000000
    } else if n == 9 {
        0x1000000000000000000
    } else if n == 10 {
        0x100000000000000000000
    } else if n == 11 {
        0x10000000000000000000000
    } else if n == 12 {
        0x1000000000000000000000000
    } else if n == 13 {
        0x100000000000000000000000000
    } else if n == 14 {
        0x10000000000000000000000000000
    } else if n == 15 {
        0x1000000000000000000000000000000
    } else if n == 16 {
        0x100000000000000000000000000000000nat
    } else {
        0
    }
}

fn pow256_exec(n: u8) -> (r: u128)
    requires
        n <= 15,
    ensures
        r == pow256(n as nat),
{
    proof {
        lemma_pow256_facts();
    }
    let mut r: u128 = 1;
    let mut k: u8 = 0;
    while k < n
        invariant
            0 <= k <= n <= 15,
            r == pow256(k as nat),
        decreases n - k,
    {
        proof {
            lemma_pow256_facts();
        }
        r = r * 256;
        k = k + 1;
    }
    r
}


/// A coding tree: every byte sits at a leaf; a path of left/right choices
/// leads to it.
pub enum HuffmanTree {
    Node { weight: u64, left: Box<HuffmanTree>, right: Box<HuffmanTree> },
    Leaf { weight: u64, byte: u8 },
}

/// The weight a tree carries.
pub open spec fn spec_weight(t: HuffmanTree) -> u64 {
    match t {
        HuffmanTree::Node { weight, .. } => weight,
        HuffmanTree::Leaf { weight, .. } => weight,
    }
}

/// Every node weighs exactly its children together.
pub open spec fn weights_consistent(t: HuffmanTree) -> bool
    decreases t,
{
    match t {
        HuffmanTree::Node { weight, left, right } => weight == spec_weight(*left) + spec_weight(
            *right,
        ) && weights_consistent(*left) && weights_consistent(*right),
        HuffmanTree::Leaf { .. } => true,
    }
}

/// The child a choice selects; a leaf has none and stays put.
pub open spec fn spec_child(t: HuffmanTree, c: Choice) -> HuffmanTree {
    match t {
        HuffmanTree::Node { left, right, .. } => if c is Left {
            *left
        } else {
            *right
        },
        HuffmanTree::Leaf { .. } => t,
    }
}

/// The bytes at the leaves of a tree, as a multiset.
pub open spec fn leaf_bytes(t: HuffmanTree) -> Multiset<u8>
    decreases t,
{
    match t {
        HuffmanTree::Node { left, right, .. } => leaf_bytes(*left).add(leaf_bytes(*right)),
        HuffmanTree::Leaf { byte, .. } => Multiset::empty().insert(byte),
    }
}

/// The bytes of a frequency table, as a multiset.
pub open spec fn byte_ms(s: Seq<(u8, u64)>) -> Multiset<u8>
    decreases s.len(),
{
    if s.len() == 0 {
        Multiset::empty()
    } else {
        byte_ms(s.drop_last()).insert(s.last().0)
    }
}

proof fn lemma_byte_ms_remove(s: Seq<(u8, u64)>, i: int)
    requires
        0 <= i < s.len(),
    ensures
        byte_ms(s) == byte_ms(s.remove(i)).insert(s[i].0),
    decreases s.len(),
{
    if i == s.len() - 1 {
        assert(s.remove(i) =~= s.drop_last());
    } else {
        lemma_byte_ms_remove(s.drop_last(), i);
        assert(s.remove(i).drop_last() =~= s.drop_last().remove(i));
        assert(s.remove(i).last() == s.last());
        assert(byte_ms(s.drop_last().remove(i)).insert(s.last().0).insert(s[i].0)
            =~= byte_ms(s.drop_last().remove(i)).insert(s[i].0).insert(s.last().0));
    }
}

/// The sum of the weights on a frequency table.
pub open spec fn sum_weights(s: Seq<(u8, u64)>) -> nat
    decreases s.len(),
{
    if s.len() == 0 {
        0
    } else {
        sum_weights(s.drop_last()) + (s.last().1 as nat)
    }
}

proof fn lemma_sum_weights_remove(s: Seq<(u8, u64)>, i: int)
    requires
        0 <= i < s.len(),
    ensures
        sum_weights(s) == sum_weights(s.remove(i)) + s[i].1,
    decreases s.len(),
{
    if i == s.len() - 1 {
        assert(s.remove(i) =~= s.drop_last());
    } else {
        lemma_sum_weights_remove(s.drop_last(), i);
        assert(s.remove(i).drop_last() =~= s.drop_last().remove(i));
        assert(s.remove(i).last() == s.last());
    }
}

/// Every byte's path from the root: a leaf yields its byte under the prefix,
/// a node explores left then right.
pub open spec fn spec_paths(t: HuffmanTree, prefix: Seq<Choice>) -> Seq<(u8, Seq<Choice>)>
    decreases t,
{
    match t {
        HuffmanTree::Leaf { byte, .. } => seq![(byte, prefix)],
        HuffmanTree::Node { left, right, .. } => spec_paths(*left, prefix.push(Choice::Left))
            + spec_paths(*right, prefix.push(Choice::Right)),
    }
}

/// The mathematical shape of a byte-and-path list.
pub open spec fn paths_view(s: Seq<(u8, Vec<Choice>)>) -> Seq<(u8, Seq<Choice>)> {
    s.map_values(|e: (u8, Vec<Choice>)| (e.0, e.1@))
}

/// The mathematical shape of a list of choice lists.
pub open spec fn choice_lists_view(s: Seq<Vec<Choice>>) -> Seq<Seq<Choice>> {
    s.map_values(|v: Vec<Choice>| v@)
}

fn copy_choices(v: &Vec<Choice>) -> (r: Vec<Choice>)
    ensures
        r@ == v@,
{
    let mut out: Vec<Choice> = Vec::new();
    let mut i: usize = 0;
    while i < v.len()
        invariant
            0 <= i <= v@.len(),
            out@ == v@.take(i as int),
        decreases v@.len() - i,
    {
        out.push(v[i]);
        proof {
            assert(out@ =~= v@.take(i + 1));
        }
        i = i + 1;
    }
    proof {
        assert(v@.take(v@.len() as int) =~= v@);
    }
    out
}

/// A frequency table ordered by weight.
pub open spec fn sorted_by_weight(s: Seq<(u8, u64)>) -> bool {
    forall|i: int, j: int| 0 <= i < j < s.len() ==> (#[trigger] s[i]).1 <= (#[trigger] s[j]).1
}

impl HuffmanTree {
    /// Builds the coding tree: the entries sorted by ascending frequency and
    /// folded into a chain, lighter subtrees joined first. The root weighs
    /// the whole table.
    pub fn new(frequencies: Vec<(u8, u64)>) -> (r: HuffmanTree)
        requires
            frequencies@.len() > 0,
            sum_weights(frequencies@) <= u64::MAX,
        ensures
            spec_weight(r) == sum_weights(frequencies@),
            weights_consistent(r),
            leaf_bytes(r) == byte_ms(frequencies@),
    {
        broadcast use vstd::seq_lib::group_to_multiset_ensures;

        let ghost orig = frequencies@;
        // Sort ascending by weight (first minimal entry first).
        let mut rest = frequencies;
        let mut sorted: Vec<(u8, u64)> = Vec::new();
        let ghost total = sum_weights(orig);
        proof {
            assert(byte_ms(sorted@).add(byte_ms(rest@)) =~= byte_ms(orig));
        }
        while rest.len() > 0
            invariant
                sorted_by_weight(sorted@),
                sorted@.len() + rest@.len() == orig.len(),
                sum_weights(sorted@.add(rest@)) == total,
                byte_ms(sorted@).add(byte_ms(rest@)) == byte_ms(orig),
                forall|i: int, j: int|
                    0 <= i < sorted@.len() && 0 <= j < rest@.len() ==> (#[trigger] sorted@[i]).1
                        <= (#[trigger] rest@[j]).1,
            decreases rest@.len(),
        {
            let mut m: usize = 0;
            let mut k: usize = 1;
            while k < rest.len()
                invariant
                    0 <= m < k <= rest@.len(),
                    rest@.len() > 0,
                    forall|j: int|
                        0 <= j < k ==> rest@[m as int].1 <= (#[trigger] rest@[j]).1,
                decreases rest@.len() - k,
            {
                if rest[k].1 < rest[m].1 {
                    m = k;
                }
                k = k + 1;
            }
            let ghost rest_pre = rest@;
            let ghost sorted_pre = sorted@;
            let picked = rest.remove(m);
            sorted.push(picked);
            proof {
                lemma_byte_ms_remove(rest_pre, m as int);
                assert(byte_ms(sorted@) == byte_ms(sorted_pre).insert(picked.0)) by {
                    assert(sorted_pre.push(picked).drop_last() =~= sorted_pre);
                }
                assert(byte_ms(sorted@).add(byte_ms(rest@)) =~= byte_ms(orig));
                lemma_sum_weights_remove(rest_pre, m as int);
                lemma_sum_weights_append(sorted_pre, rest_pre);
                lemma_sum_weights_append(sorted_pre.push(picked), rest_pre.remove(m as int));
                assert(sum_weights(sorted_pre.push(picked)) == sum_weights(sorted_pre)
                    + picked.1) by {
                    assert(sorted_pre.push(picked).drop_last() =~= sorted_pre);
                }
                assert forall|i: int, j: int|
                    0 <= i < sorted@.len() && 0 <= j < rest@.len() implies (#[trigger] sorted@[
                i]).1 <= (#[trigger] rest@[j]).1 by {
                    let jj = if j < m {
                        j
                    } else {
                        j + 1
                    };
                    assert(rest@[j] == rest_pre[jj]);
                    if i < sorted@.len() - 1 {
                        assert(sorted@[i] == sorted_pre[i]);
                    } else {
                        assert(sorted@[i] == rest_pre[m as int]);
                    }
                }
                assert forall|i: int, j: int|
                    0 <= i < j < sorted@.len() implies (#[trigger] sorted@[i]).1 <= (
                #[trigger] sorted@[j]).1 by {
                    assert(sorted@[i] == sorted_pre[i]);
                    if j < sorted@.len() - 1 {
                        assert(sorted@[j] == sorted_pre[j]);
                    }
                }
            }
        }
        proof {
            assert(sorted@.add(rest@) =~= sorted@);
            assert(sorted@.len() == orig.len());
            assert(byte_ms(rest@) =~= Multiset::<u8>::empty());
            assert(byte_ms(sorted@).add(Multiset::<u8>::empty()) =~= byte_ms(sorted@));
        }
        // Fold the sorted entries into a chain of nodes.
        let mut root = {
            let first = &sorted[0];
            HuffmanTree::Leaf { weight: first.1, byte: first.0 }
        };
        let mut i: usize = 1;
        proof {
            assert(sorted@.take(1).drop_last() =~= Seq::<(u8, u64)>::empty());
            assert(sorted@.take(1).last() == sorted@[0]);
            assert(sum_weights(Seq::<(u8, u64)>::empty()) == 0);
            assert(sum_weights(sorted@.take(1)) == sorted@[0].1);
            assert(byte_ms(sorted@.take(1)) =~= Multiset::<u8>::empty().insert(sorted@[0].0));
        }
        while i < sorted.len()
            invariant
                1 <= i <= sorted@.len(),
                sum_weights(sorted@) == total,
                byte_ms(sorted@) == byte_ms(orig),
                total <= u64::MAX,
                spec_weight(root) == sum_weights(sorted@.take(i as int)),
                weights_consistent(root),
                leaf_bytes(root) == byte_ms(sorted@.take(i as int)),
            decreases sorted@.len() - i,
        {
            proof {
                lemma_sum_weights_prefix(sorted@, i + 1);
                assert(sorted@.take(i + 1).drop_last() =~= sorted@.take(i as int));
                assert(sorted@.take(i + 1).last() == sorted@[i as int]);
            }
            let entry = &sorted[i];
            let weight = entry.1;
            let byte = entry.0;
            let root_weight = root.weight();
            let ghost root_pre = root;
            root = if weight >= root_weight {
                HuffmanTree::Node {
                    weight: weight + root_weight,
                    left: Box::new(root),
                    right: Box::new(HuffmanTree::Leaf { weight, byte }),
                }
            } else {
                HuffmanTree::Node {
                    weight: weight + root_weight,
                    left: Box::new(HuffmanTree::Leaf { weight, byte }),
                    right: Box::new(root),
                }
            };
            proof {
                assert(spec_weight(root) == weight + root_weight);
                assert(weights_consistent(HuffmanTree::Leaf { weight, byte }));
                assert(weights_consistent(root));
                assert(leaf_bytes(HuffmanTree::Leaf { weight, byte }) =~= Multiset::<
                    u8,
                >::empty().insert(byte));
                assert(leaf_bytes(root) =~= leaf_bytes(root_pre).insert(byte));
                assert(byte_ms(sorted@.take(i + 1)) =~= byte_ms(sorted@.take(i as int)).insert(
                    byte,
                ));
            }
            i = i + 1;
        }
        proof {
            assert(sorted@.take(sorted@.len() as int) =~= sorted@);
        }
        root
    }

    pub fn weight(&self) -> (r: u64)
        ensures
            r == spec_weight(*self),
    {
        match self {
            HuffmanTree::Node { weight, .. } => *weight,
            HuffmanTree::Leaf { weight, .. } => *weight,
        }
    }

    /// One step down the tree: the chosen child's byte if it is a leaf, or
    /// the child itself to keep walking.
    pub fn find(&self, choice: Choice) -> (r: Result<u8, &HuffmanTree>)
        requires
            *self is Node,
        ensures
            match r {
                Ok(b) => spec_child(*self, choice) matches HuffmanTree::Leaf { byte, .. } && byte
                    == b,
                Err(t) => *t == spec_child(*self, choice) && spec_child(*self, choice) is Node,
            },
    {
        match self {
            HuffmanTree::Node { left, right, .. } => {
                let sub: &HuffmanTree = match choice {
                    Choice::Left => left,
                    Choice::Right => right,
                };
                match sub {
                    HuffmanTree::Node { .. } => Err(sub),
                    HuffmanTree::Leaf { byte, .. } => Ok(*byte),
                }
            },
            HuffmanTree::Leaf { .. } => {
                proof {
                    assert(false);
                }
                Ok(0)
            },
        }
    }

    /// Every byte's choice path, depth first, under the given prefix.
    pub fn serialize_choices_with(&self, choices: Vec<Choice>) -> (r: Vec<(u8, Vec<Choice>)>)
        ensures
            paths_view(r@) == spec_paths(*self, choices@),
        decreases *self,
    {
        match self {
            HuffmanTree::Node { left, right, .. } => {
                let mut left_choices = copy_choices(&choices);
                left_choices.push(Choice::Left);
                let mut right_choices = copy_choices(&choices);
                right_choices.push(Choice::Right);
                let mut serialized = left.serialize_choices_with(left_choices);
                let mut right_part = right.serialize_choices_with(right_choices);
                let ghost left_view = paths_view(serialized@);
                serialized.append(&mut right_part);
                proof {
                    assert(paths_view(serialized@) =~~= left_view + spec_paths(
                        **right,
                        choices@.push(Choice::Right),
                    ));
                }
                serialized
            },
            HuffmanTree::Leaf { byte, .. } => {
                let mut out: Vec<(u8, Vec<Choice>)> = Vec::new();
                out.push((*byte, choices));
                proof {
                    assert(paths_view(out@) =~~= spec_paths(*self, choices@));
                }
                out
            },
        }
    }

    /// Every byte's path packed into bits, listed byte by ascending byte.
    pub fn serialize(&self) -> (r: Vec<EncodedTreePath>)
        ensures
            exists|with_bytes: Seq<(u8, Seq<Choice>)>|
                #![auto]
                with_bytes.to_multiset() == spec_paths(*self, Seq::empty()).to_multiset()
                    && sorted_by_byte(with_bytes) && r@ == with_bytes.map_values(
                    |e: (u8, Seq<Choice>)| spec_serialize(e.1),
                ),
    {
        let lists = self.serialize_choices();
        let ghost wb = choose|with_bytes: Seq<(u8, Seq<Choice>)>|
            #![auto]
            with_bytes.to_multiset() == spec_paths(*self, Seq::empty()).to_multiset()
                && sorted_by_byte(with_bytes) && choice_lists_view(lists@) == with_bytes.map_values(
                |e: (u8, Seq<Choice>)| e.1,
            );
        let mut out: Vec<EncodedTreePath> = Vec::new();
        let mut i: usize = 0;
        proof {
            assert(choice_lists_view(lists@).len() == lists@.len());
        }
        while i < lists.len()
            invariant
                0 <= i <= lists@.len(),
                out@.len() == i,
                wb.len() == lists@.len(),
                forall|x: int|
                    0 <= x < lists@.len() ==> (#[trigger] wb[x]).1 == choice_lists_view(lists@)[x],
                forall|x: int| 0 <= x < i ==> out@[x] == spec_serialize((#[trigger] wb[x]).1),
            decreases lists@.len() - i,
        {
            let copy = copy_choices(&lists[i]);
            out.push(Choice::serialize(copy));
            proof {
                assert(choice_lists_view(lists@)[i as int] == lists@[i as int]@);
            }
            i = i + 1;
        }
        proof {
            assert(out@ =~= wb.map_values(|e: (u8, Seq<Choice>)| spec_serialize(e.1)));
        }
        out
    }

    /// Every byte's choice path, listed byte by ascending byte.
    pub fn serialize_choices(&self) -> (r: Vec<Vec<Choice>>)
        ensures
            exists|with_bytes: Seq<(u8, Seq<Choice>)>|
                #![auto]
                with_bytes.to_multiset() == spec_paths(*self, Seq::empty()).to_multiset()
                    && sorted_by_byte(with_bytes) && choice_lists_view(r@)
                    == with_bytes.map_values(|e: (u8, Seq<Choice>)| e.1),
    {
        broadcast use vstd::seq_lib::group_to_multiset_ensures;

        let empty: Vec<Choice> = Vec::new();
        proof {
            assert(empty@ =~= Seq::<Choice>::empty());
        }
        let mut rest = self.serialize_choices_with(empty);
        let ghost all = paths_view(rest@);
        let mut sorted: Vec<(u8, Vec<Choice>)> = Vec::new();
        while rest.len() > 0
            invariant
                sorted_by_byte(paths_view(sorted@)),
                paths_view(sorted@).to_multiset().add(paths_view(rest@).to_multiset())
                    == all.to_multiset(),
                forall|i: int, j: int|
                    0 <= i < sorted@.len() && 0 <= j < rest@.len() ==> (
                    #[trigger] paths_view(sorted@)[i]).0 <= (#[trigger] paths_view(rest@)[j]).0,
            decreases rest@.len(),
        {
            let mut m: usize = 0;
            let mut k: usize = 1;
            while k < rest.len()
                invariant
                    0 <= m < k <= rest@.len(),
                    rest@.len() > 0,
                    forall|j: int|
                        0 <= j < k ==> rest@[m as int].0 <= (#[trigger] rest@[j]).0,
                decreases rest@.len() - k,
            {
                if rest[k].0 < rest[m].0 {
                    m = k;
                }
                k = k + 1;
            }
            let ghost rest_exec_pre = rest@;
            let ghost rest_pre = paths_view(rest@);
            let ghost sorted_pre = paths_view(sorted@);
            let picked = rest.remove(m);
            sorted.push(picked);
            proof {
                broadcast use vstd::seq_lib::group_to_multiset_ensures;

                assert(forall|x: int|
                    0 <= x < rest_pre.len() ==> (#[trigger] rest_pre[x]).0 == rest_exec_pre[x].0);

                assert(paths_view(rest@) =~~= rest_pre.remove(m as int));
                assert(paths_view(sorted@) =~~= sorted_pre.push((picked.0, picked.1@)));
                assert((picked.0, picked.1@) == rest_pre[m as int]);
                assert(rest_pre.contains(rest_pre[m as int]));
                assert(rest_pre.remove(m as int).to_multiset() =~= rest_pre.to_multiset().remove(
                    rest_pre[m as int],
                ));
                assert(sorted_pre.push(rest_pre[m as int]).to_multiset()
                    =~= sorted_pre.to_multiset().insert(rest_pre[m as int]));
                assert(paths_view(sorted@).to_multiset().add(paths_view(rest@).to_multiset())
                    =~= all.to_multiset());
                assert forall|i: int, j: int|
                    0 <= i < sorted@.len() && 0 <= j < rest@.len() implies (
                #[trigger] paths_view(sorted@)[i]).0 <= (#[trigger] paths_view(rest@)[j]).0 by {
                    let jj = if j < m {
                        j
                    } else {
                        j + 1
                    };
                    assert(paths_view(rest@)[j] == rest_pre[jj]);
                    assert(rest_pre[jj].0 == rest_exec_pre[jj].0);
                    assert(rest_exec_pre[m as int].0 <= rest_exec_pre[jj].0);
                    if i < sorted@.len() - 1 {
                        assert(paths_view(sorted@)[i] == sorted_pre[i]);
                    } else {
                        assert(paths_view(sorted@)[i] == rest_pre[m as int]);
                    }
                }
                assert forall|i: int, j: int|
                    0 <= i < j < paths_view(sorted@).len() implies (
                #[trigger] paths_view(sorted@)[i]).0 <= (#[trigger] paths_view(sorted@)[j]).0 by {
                    assert(paths_view(sorted@)[i] == sorted_pre[i]);
                    if j < paths_view(sorted@).len() - 1 {
                        assert(paths_view(sorted@)[j] == sorted_pre[j]);
                    } else {
                        assert(paths_view(sorted@)[j] == rest_pre[m as int]);
                    }
                }
            }
        }
        proof {
            assert(paths_view(rest@).to_multiset() =~= Multiset::<(u8, Seq<Choice>)>::empty());
            assert(paths_view(sorted@).to_multiset().add(Multiset::<(u8, Seq<Choice>)>::empty())
                =~= paths_view(sorted@).to_multiset());
        }
        // Strip the bytes, keeping the order.
        let ghost witness = paths_view(sorted@);
        let mut out: Vec<Vec<Choice>> = Vec::new();
        let mut idx: usize = 0;
        while idx < sorted.len()
            invariant
                0 <= idx <= sorted@.len(),
                out@.len() == idx,
                witness == paths_view(sorted@),
                forall|x: int|
                    0 <= x < idx ==> choice_lists_view(out@)[x] == (#[trigger] witness[x]).1,
            decreases sorted@.len() - idx,
        {
            let path = copy_choices(&sorted[idx].1);
            out.push(path);
            proof {
                assert(choice_lists_view(out@)[idx as int] == path@);
                assert(witness[idx as int].1 == sorted@[idx as int].1@);
                assert(forall|x: int|
                    0 <= x < idx ==> choice_lists_view(out@)[x] == (#[trigger] choice_lists_view(
                        out@.take(idx as int),
                    ))[x]);
            }
            idx = idx + 1;
        }
        proof {
            assert(choice_lists_view(out@) =~~= witness.map_values(|e: (u8, Seq<Choice>)| e.1));
        }
        out
    }
}

/// Paths listed by ascending byte.
pub open spec fn sorted_by_byte(s: Seq<(u8, Seq<Choice>)>) -> bool {
    forall|i: int, j: int| 0 <= i < j < s.len() ==> (#[trigger] s[i]).0 <= (#[trigger] s[j]).0
}

proof fn lemma_sum_weights_append(a: Seq<(u8, u64)>, b: Seq<(u8, u64)>)
    ensures
        sum_weights(a.add(b)) == sum_weights(a) + sum_weights(b),
    decreases b.len(),
{
    if b.len() == 0 {
        assert(a.add(b) =~= a);
    } else {
        lemma_sum_weights_append(a, b.drop_last());
        assert(a.add(b).drop_last() =~= a.add(b.drop_last()));
        assert(a.add(b).last() == b.last());
    }
}

proof fn lemma_sum_weights_prefix(s: Seq<(u8, u64)>, i: int)
    requires
        0 <= i <= s.len(),
    ensures
        sum_weights(s.take(i)) <= sum_weights(s),
    decreases s.len() - i,
{
    if i < s.len() {
        lemma_sum_weights_prefix(s, i + 1);
        assert(s.take(i + 1).drop_last() =~= s.take(i));
    } else {
        assert(s.take(i) =~= s);
    }
}


/// The combined length of all choice lists.
pub open spec fn total_len(t: Seq<(u8, Seq<Choice>)>) -> nat
    decreases t.len(),
{
    if t.len() == 0 {
        0
    } else {
        total_len(t.drop_last()) + t.last().1.len()
    }
}

/// The entries whose paths turn left first, each with that first turn
/// stripped.
pub open spec fn lefts_of(t: Seq<(u8, Seq<Choice>)>) -> Seq<(u8, Seq<Choice>)>
    decreases t.len(),
{
    if t.len() == 0 {
        Seq::empty()
    } else {
        let rest = lefts_of(t.drop_last());
        let e = t.last();
        if e.1.len() > 0 && e.1[0] is Left {
            rest.push((e.0, e.1.skip(1)))
        } else {
            rest
        }
    }
}

/// The entries whose paths turn right first, each with that first turn
/// stripped.
pub open spec fn rights_of(t: Seq<(u8, Seq<Choice>)>) -> Seq<(u8, Seq<Choice>)>
    decreases t.len(),
{
    if t.len() == 0 {
        Seq::empty()
    } else {
        let rest = rights_of(t.drop_last());
        let e = t.last();
        if e.1.len() > 0 && e.1[0] is Right {
            rest.push((e.0, e.1.skip(1)))
        } else {
            rest
        }
    }
}

/// The last entry whose path is already exhausted, if any.
pub open spec fn leftover_of(t: Seq<(u8, Seq<Choice>)>) -> Option<u8>
    decreases t.len(),
{
    if t.len() == 0 {
        None
    } else if t.last().1.len() == 0 {
        Some(t.last().0)
    } else {
        leftover_of(t.drop_last())
    }
}

/// Splitting off a first turn strictly shrinks the table measure.
proof fn lemma_split_measure(t: Seq<(u8, Seq<Choice>)>)
    ensures
        total_len(lefts_of(t)) + lefts_of(t).len() <= total_len(t),
        total_len(rights_of(t)) + rights_of(t).len() <= total_len(t),
    decreases t.len(),
{
    if t.len() > 0 {
        lemma_split_measure(t.drop_last());
        let e = t.last();
        if e.1.len() > 0 && e.1[0] is Left {
            assert(lefts_of(t).drop_last() =~= lefts_of(t.drop_last()));
            assert(lefts_of(t).last() == (e.0, e.1.skip(1)));
        }
        if e.1.len() > 0 && e.1[0] is Right {
            assert(rights_of(t).drop_last() =~= rights_of(t.drop_last()));
            assert(rights_of(t).last() == (e.0, e.1.skip(1)));
        }
    }
}

/// The tables the decoder accepts: one entry stands alone; a larger table
/// splits on the first turn, and the side the recursion continues on must be
/// acceptable in turn. (An exhausted entry becomes a leaf beside the side
/// that still has entries.)
pub open spec fn table_wf(t: Seq<(u8, Seq<Choice>)>) -> bool
    decreases total_len(t) + t.len(),
    via table_wf_dec
{
    if t.len() == 0 {
        false
    } else if t.len() == 1 {
        true
    } else {
        match leftover_of(t) {
            None => table_wf(lefts_of(t)) && table_wf(rights_of(t)),
            Some(b) => if rights_of(t).len() == 0 {
                table_wf(lefts_of(t))
            } else {
                table_wf(rights_of(t))
            },
        }
    }
}

#[via_fn]
proof fn table_wf_dec(t: Seq<(u8, Seq<Choice>)>) {
    lemma_split_measure(t);
}

/// The tree a table decodes to: a lone entry is a leaf, a split becomes a
/// node, and an exhausted entry becomes a leaf beside the populated side.
/// Rebuilt trees carry no weights.
pub open spec fn spec_decode_table(t: Seq<(u8, Seq<Choice>)>) -> HuffmanTree
    decreases total_len(t) + t.len(),
    via spec_decode_table_dec
{
    if t.len() == 0 {
        HuffmanTree::Leaf { weight: 0, byte: 0 }
    } else if t.len() == 1 {
        HuffmanTree::Leaf { weight: 0, byte: t[0].0 }
    } else {
        match leftover_of(t) {
            None => HuffmanTree::Node {
                weight: 0,
                left: Box::new(spec_decode_table(lefts_of(t))),
                right: Box::new(spec_decode_table(rights_of(t))),
            },
            Some(b) => if rights_of(t).len() == 0 {
                HuffmanTree::Node {
                    weight: 0,
                    left: Box::new(spec_decode_table(lefts_of(t))),
                    right: Box::new(HuffmanTree::Leaf { weight: 0, byte: b }),
                }
            } else {
                HuffmanTree::Node {
                    weight: 0,
                    left: Box::new(HuffmanTree::Leaf { weight: 0, byte: b }),
                    right: Box::new(spec_decode_table(rights_of(t))),
                }
            },
        }
    }
}

#[via_fn]
proof fn spec_decode_table_dec(t: Seq<(u8, Seq<Choice>)>) {
    lemma_split_measure(t);
}

/// A table of packed paths, each unpacked to its choices.
pub open spec fn decoded_view(t: Seq<(u8, EncodedTreePath)>) -> Seq<(u8, Seq<Choice>)> {
    t.map_values(|e: (u8, EncodedTreePath)| (e.0, spec_deserialize(e.1)))
}

impl HuffmanTree {
    /// Rebuilds a coding tree from a table of packed paths.
    pub fn deserialize(table: Vec<(u8, EncodedTreePath)>) -> (r: HuffmanTree)
        requires
            table_wf(decoded_view(table@)),
        ensures
            r == spec_decode_table(decoded_view(table@)),
    {
        let mut unpacked: Vec<(u8, Vec<Choice>)> = Vec::new();
        let mut i: usize = 0;
        while i < table.len()
            invariant
                0 <= i <= table@.len(),
                unpacked@.len() == i,
                forall|x: int|
                    0 <= x < i ==> paths_view(unpacked@)[x] == (#[trigger] decoded_view(table@)[x]),
            decreases table@.len() - i,
        {
            let entry = &table[i];
            unpacked.push((entry.0, Choice::deserialize(entry.1)));
            proof {
                assert(paths_view(unpacked@)[i as int] == decoded_view(table@)[i as int]);
            }
            i = i + 1;
        }
        proof {
            assert(paths_view(unpacked@) =~~= decoded_view(table@));
        }
        Self::deserialize_with(unpacked)
    }

    /// Rebuilds a coding tree from a table of unpacked paths.
    pub fn deserialize_with(table: Vec<(u8, Vec<Choice>)>) -> (r: HuffmanTree)
        requires
            table_wf(paths_view(table@)),
        ensures
            r == spec_decode_table(paths_view(table@)),
        decreases total_len(paths_view(table@)) + table@.len(),
    {
        let ghost tv = paths_view(table@);
        if table.len() == 1 {
            return HuffmanTree::Leaf { weight: 0, byte: table[0].0 };
        }
        let mut lefts: Vec<(u8, Vec<Choice>)> = Vec::new();
        let mut rights: Vec<(u8, Vec<Choice>)> = Vec::new();
        let mut leftover: Option<u8> = None;
        let mut i: usize = 0;
        while i < table.len()
            invariant
                0 <= i <= table@.len(),
                tv == paths_view(table@),
                paths_view(lefts@) == lefts_of(tv.take(i as int)),
                paths_view(rights@) == rights_of(tv.take(i as int)),
                leftover == leftover_of(tv.take(i as int)),
            decreases table@.len() - i,
        {
            let byte = table[i].0;
            let mut choices = copy_choices(&table[i].1);
            proof {
                assert(tv.take(i + 1).drop_last() =~= tv.take(i as int));
                assert(tv.take(i + 1).last() == tv[i as int]);
                assert(tv[i as int] == (table@[i as int].0, table@[i as int].1@));
            }
            if choices.len() == 0 {
                leftover = Some(byte);
            } else {
                let first = choices.remove(0);
                proof {
                    assert(choices@ =~= table@[i as int].1@.skip(1));
                }
                match first {
                    Choice::Left => {
                        let ghost pre = paths_view(lefts@);
                        lefts.push((byte, choices));
                        proof {
                            assert(paths_view(lefts@) =~~= pre.push((byte, table@[i as int].1@.skip(1))));
                        }
                    },
                    Choice::Right => {
                        let ghost pre = paths_view(rights@);
                        rights.push((byte, choices));
                        proof {
                            assert(paths_view(rights@) =~~= pre.push((byte, table@[i as int].1@.skip(1))));
                        }
                    },
                }
            }
            i = i + 1;
        }
        proof {
            assert(tv.take(tv.len() as int) =~= tv);
            lemma_split_measure(tv);
        }
        match leftover {
            None => HuffmanTree::Node {
                weight: 0,
                left: Box::new(Self::deserialize_with(lefts)),
                right: Box::new(Self::deserialize_with(rights)),
            },
            Some(byte) => {
                if rights.len() == 0 {
                    HuffmanTree::Node {
                        weight: 0,
                        left: Box::new(Self::deserialize_with(lefts)),
                        right: Box::new(HuffmanTree::Leaf { weight: 0, byte }),
                    }
                } else {
                    HuffmanTree::Node {
                        weight: 0,
                        left: Box::new(HuffmanTree::Leaf { weight: 0, byte }),
                        right: Box::new(Self::deserialize_with(rights)),
                    }
                }
            },
        }
    }
}

} // verus!
