//! The preimage template: a tagged binary record with an 8-byte nonce slot.
//!
//! Layout: tag 5, the block index (8 bytes), tag 14, the message length,
//! the message, tag 13, tag 32, the previous hash, tag 5, the nonce slot
//! (8 bytes), tag 18, tag 0, tag 0, the miner. Every tag and length is a
//! 4-byte big-endian integer; the index and nonce are 8-byte big-endian.

use crate::difficulty::bytes_value;
use vstd::prelude::*;
use vstd::string::StringSliceAdditionalSpecFns;

verus! {

/// `256^i`, the weight of byte `i` counted from the least significant end.
pub open spec fn byte_weight(i: int) -> nat
    decreases i,
{
    if i <= 0 {
        1
    } else {
        256 * byte_weight(i - 1)
    }
}

proof fn lemma_byte_weight_step(i: int)
    requires
        i >= 0,
    ensures
        byte_weight(i + 1) == 256 * byte_weight(i),
        byte_weight(i) > 0,
    decreases i,
{
    if i > 0 {
        lemma_byte_weight_step(i - 1);
    }
}

/// The `width` low bytes of `v`, least significant first.
pub open spec fn le_digits(v: nat, width: nat) -> Seq<u8> {
    Seq::new(width, |i: int| ((v / byte_weight(i)) % 256) as u8)
}

/// The `width` low bytes of `v`, most significant first.
pub open spec fn be_digits(v: nat, width: nat) -> Seq<u8> {
    Seq::new(width, |i: int| ((v / byte_weight(width - 1 - i)) % 256) as u8)
}

/// A 4-byte big-endian tag or length.
pub open spec fn tag(t: nat) -> Seq<u8> {
    be_digits(t, 4)
}

/// Everything in front of the nonce slot.
pub open spec fn encode_prefix(index: u64, message: Seq<u8>, prev_hash: Seq<u8>) -> Seq<u8> {
    tag(5) + be_digits(index as nat, 8) + tag(14) + tag(message.len()) + message + tag(13) + tag(32)
        + prev_hash + tag(5)
}

/// Everything behind the nonce slot.
pub open spec fn encode_suffix(miner: Seq<u8>) -> Seq<u8> {
    tag(18) + tag(0) + tag(0) + miner
}

/// The full preimage with `nonce` in its slot.
pub open spec fn encode_preimage(
    index: u64,
    message: Seq<u8>,
    prev_hash: Seq<u8>,
    nonce: u64,
    miner: Seq<u8>,
) -> Seq<u8> {
    encode_prefix(index, message, prev_hash) + be_digits(nonce as nat, 8) + encode_suffix(miner)
}

proof fn lemma_bytes_value_congruent(b1: Seq<u8>, s1: int, b2: Seq<u8>, s2: int, w: nat)
    requires
        forall|j: int| 0 <= j < w ==> #[trigger] b1[s1 + j] == b2[s2 + j],
    ensures
        bytes_value(b1, s1, w) == bytes_value(b2, s2, w),
    decreases w,
{
    if w > 0 {
        lemma_bytes_value_congruent(b1, s1, b2, s2, (w - 1) as nat);
        assert(b1[s1 + (w - 1)] == b2[s2 + (w - 1)]);
    }
}

proof fn lemma_be_digits_split(x: nat, w: nat)
    ensures
        be_digits(x, w + 1) =~= be_digits(x / 256, w).push((x % 256) as u8),
{
    let lhs = be_digits(x, w + 1);
    let rhs = be_digits(x / 256, w).push((x % 256) as u8);
    assert forall|j: int| 0 <= j < w + 1 implies #[trigger] lhs[j] == rhs[j] by {
        if j < w {
            let e = w - 1 - j;
            lemma_byte_weight_step(e);
            assert(lhs[j] == ((x / byte_weight(e + 1)) % 256) as u8);
            assert(rhs[j] == (((x / 256) / byte_weight(e)) % 256) as u8);
            vstd::arithmetic::div_mod::lemma_div_denominator(x as int, 256, byte_weight(e) as int);
            assert(256 * byte_weight(e) == byte_weight(e + 1));
        } else {
            assert(byte_weight(0) == 1);
            assert(lhs[j] == ((x / byte_weight(0)) % 256) as u8);
        }
    }
}

/// Big-endian digits read back as the value they were written from.
proof fn lemma_be_digits_value(x: nat, w: nat)
    requires
        x < byte_weight(w as int),
    ensures
        bytes_value(be_digits(x, w), 0, w) == x,
    decreases w,
{
    if w == 0 {
        assert(byte_weight(0) == 1);
    } else {
        let v = (w - 1) as nat;
        lemma_byte_weight_step(v as int);
        assert(x / 256 < byte_weight(v as int)) by (nonlinear_arith)
            requires
                x < 256 * byte_weight(v as int),
        ;
        lemma_be_digits_value(x / 256, v);
        lemma_be_digits_split(x, v);
        lemma_bytes_value_congruent(be_digits(x, w), 0, be_digits(x / 256, v), 0, v);
        assert(be_digits(x, w)[v as int] == (x % 256) as u8);
    }
}

/// The fields of a preimage sit at fixed offsets, and its big-endian
/// integers read back as the values that were encoded.
pub proof fn lemma_preimage_fields(
    index: u64,
    message: Seq<u8>,
    prev_hash: Seq<u8>,
    nonce: u64,
    miner: Seq<u8>,
)
    requires
        message.len() <= u32::MAX,
        prev_hash.len() == 32,
        miner.len() == 32,
    ensures
        ({
            let b = encode_preimage(index, message, prev_hash, nonce, miner);
            let l = message.len() as int;
            &&& b.len() == 116 + l
            &&& b.subrange(0, 4) == tag(5)
            &&& bytes_value(b, 4, 8) == index
            &&& b.subrange(12, 16) == tag(14)
            &&& bytes_value(b, 16, 4) == l
            &&& b.subrange(20, 20 + l) == message
            &&& b.subrange(20 + l, 24 + l) == tag(13)
            &&& b.subrange(24 + l, 28 + l) == tag(32)
            &&& b.subrange(28 + l, 60 + l) == prev_hash
            &&& b.subrange(60 + l, 64 + l) == tag(5)
            &&& bytes_value(b, 64 + l, 8) == nonce
            &&& b.subrange(72 + l, 76 + l) == tag(18)
            &&& b.subrange(76 + l, 80 + l) == tag(0)
            &&& b.subrange(80 + l, 84 + l) == tag(0)
            &&& b.subrange(84 + l, 116 + l) == miner
        }),
{
    let b = encode_preimage(index, message, prev_hash, nonce, miner);
    let l = message.len() as int;
    assert(byte_weight(0) == 1);
    assert(byte_weight(1) == 256);
    assert(byte_weight(2) == 0x1_0000);
    assert(byte_weight(3) == 0x100_0000);
    assert(byte_weight(4) == 0x1_0000_0000);
    assert(byte_weight(5) == 0x100_0000_0000);
    assert(byte_weight(6) == 0x1_0000_0000_0000);
    assert(byte_weight(7) == 0x100_0000_0000_0000);
    assert(byte_weight(8) == 0x1_0000_0000_0000_0000);
    assert(b.subrange(0, 4) =~= tag(5));
    assert(b.subrange(12, 16) =~= tag(14));
    assert(b.subrange(20, 20 + l) =~= message);
    assert(b.subrange(20 + l, 24 + l) =~= tag(13));
    assert(b.subrange(24 + l, 28 + l) =~= tag(32));
    assert(b.subrange(28 + l, 60 + l) =~= prev_hash);
    assert(b.subrange(60 + l, 64 + l) =~= tag(5));
    assert(b.subrange(72 + l, 76 + l) =~= tag(18));
    assert(b.subrange(76 + l, 80 + l) =~= tag(0));
    assert(b.subrange(80 + l, 84 + l) =~= tag(0));
    assert(b.subrange(84 + l, 116 + l) =~= miner);
    lemma_be_digits_value(index as nat, 8);
    lemma_bytes_value_congruent(b, 4, be_digits(index as nat, 8), 0, 8);
    lemma_be_digits_value(l as nat, 4);
    lemma_bytes_value_congruent(b, 16, be_digits(l as nat, 4), 0, 4);
    lemma_be_digits_value(nonce as nat, 8);
    lemma_bytes_value_congruent(b, 64 + l, be_digits(nonce as nat, 8), 0, 8);
}

/// Appends the bytes of `src` to `buf`.
pub(crate) fn append_bytes(buf: &mut Vec<u8>, src: &[u8])
    requires
        old(buf)@.len() + src@.len() <= usize::MAX,
    ensures
        final(buf)@ == old(buf)@ + src@,
{
    let ghost start = buf@;
    let mut i: usize = 0;
    while i < src.len()
        invariant
            i <= src@.len(),
            buf@ == start + src@.take(i as int),
        decreases src@.len() - i,
    {
        buf.push(src[i]);
        i = i + 1;
        proof {
            assert(buf@ =~= start + src@.take(i as int));
        }
    }
    assert(src@.take(src@.len() as int) =~= src@);
}

/// The `width` low bytes of `v`, least significant first.
pub(crate) fn le_digits_of(v: u64, width: usize) -> (r: Vec<u8>)
    requires
        width <= 8,
    ensures
        r@ == le_digits(v as nat, width as nat),
{
    let mut out: Vec<u8> = Vec::new();
    let mut i: usize = 0;
    let mut rest: u64 = v;
    assert(byte_weight(0) == 1);
    while i < width
        invariant
            i <= width,
            out@ == le_digits(v as nat, width as nat).take(i as int),
            rest as nat == v as nat / byte_weight(i as int),
        decreases width - i,
    {
        proof {
            lemma_byte_weight_step(i as int);
            vstd::arithmetic::div_mod::lemma_div_denominator(
                v as int,
                byte_weight(i as int) as int,
                256,
            );
        }
        out.push((rest % 256) as u8);
        rest = rest / 256;
        i = i + 1;
        proof {
            assert(out@ =~= le_digits(v as nat, width as nat).take(i as int));
        }
    }
    assert(le_digits(v as nat, width as nat).take(width as int) =~= le_digits(
        v as nat,
        width as nat,
    ));
    out
}

/// Appends the `width` low bytes of `v` to `buf`, most significant first.
pub(crate) fn push_be(buf: &mut Vec<u8>, v: u64, width: usize)
    requires
        width <= 8,
        old(buf)@.len() + width <= usize::MAX,
    ensures
        final(buf)@ == old(buf)@ + be_digits(v as nat, width as nat),
{
    let le = le_digits_of(v, width);
    let ghost start = buf@;
    let mut i: usize = 0;
    while i < width
        invariant
            i <= width,
            width <= 8,
            le@ == le_digits(v as nat, width as nat),
            buf@ == start + be_digits(v as nat, width as nat).take(i as int),
        decreases width - i,
    {
        buf.push(le[width - 1 - i]);
        i = i + 1;
        proof {
            assert(buf@ =~= start + be_digits(v as nat, width as nat).take(i as int));
        }
    }
    assert(be_digits(v as nat, width as nat).take(width as int) =~= be_digits(
        v as nat,
        width as nat,
    ));
}

/// The part of the preimage in front of the nonce slot.
pub fn build_prefix(index: u64, message: &str, prev_hash: &[u8; 32]) -> (r: Vec<u8>)
    requires
        message.spec_bytes().len() <= u32::MAX,
        message.spec_bytes().len() + 128 <= usize::MAX,
    ensures
        r@ == encode_prefix(index, message.spec_bytes(), prev_hash@),
{
    let msg = message.as_bytes();
    let mut prefix: Vec<u8> = Vec::new();
    push_be(&mut prefix, 5, 4);
    push_be(&mut prefix, index, 8);
    push_be(&mut prefix, 14, 4);
    push_be(&mut prefix, msg.len() as u64, 4);
    append_bytes(&mut prefix, msg);
    push_be(&mut prefix, 13, 4);
    push_be(&mut prefix, 32, 4);
    append_bytes(&mut prefix, prev_hash);
    push_be(&mut prefix, 5, 4);
    prefix
}

/// The part of the preimage behind the nonce slot.
pub fn build_suffix(miner: &[u8; 32]) -> (r: Vec<u8>)
    ensures
        r@ == encode_suffix(miner@),
{
    let mut suffix: Vec<u8> = Vec::new();
    push_be(&mut suffix, 18, 4);
    push_be(&mut suffix, 0, 4);
    push_be(&mut suffix, 0, 4);
    append_bytes(&mut suffix, miner);
    suffix
}

/// A preimage buffer with the offset of its nonce slot.
#[derive(Clone)]
pub struct BlockData {
    pub combined_data: Vec<u8>,
    pub nonce_position: usize,
}

impl BlockData {
    /// The slot lies inside the buffer.
    pub open spec fn wf(&self) -> bool {
        self.nonce_position + 8 <= self.combined_data@.len()
    }

    /// The buffer with `nonce` written into the slot.
    pub open spec fn preimage(&self, nonce: u64) -> Seq<u8> {
        self.combined_data@.take(self.nonce_position as int) + be_digits(nonce as nat, 8)
            + self.combined_data@.skip(self.nonce_position + 8)
    }

    /// Encodes the fixed fields around a zeroed nonce slot.
    pub fn new(index: u64, message: &str, prev_hash: &[u8; 32], miner: &[u8; 32]) -> (r: Self)
        requires
            message.spec_bytes().len() <= u32::MAX,
            message.spec_bytes().len() + 128 <= usize::MAX,
        ensures
            r.wf(),
            r.nonce_position == encode_prefix(index, message.spec_bytes(), prev_hash@).len(),
            r.combined_data@ == encode_preimage(index, message.spec_bytes(), prev_hash@, 0, miner@),
            forall|n: u64| #[trigger]
                r.preimage(n) == encode_preimage(index, message.spec_bytes(), prev_hash@, n, miner@),
    {
        let mut combined_data = build_prefix(index, message, prev_hash);
        let nonce_position = combined_data.len();
        push_be(&mut combined_data, 0, 8);
        let suffix = build_suffix(miner);
        append_bytes(&mut combined_data, suffix.as_slice());
        let r = BlockData { combined_data, nonce_position };
        proof {
            let p = encode_prefix(index, message.spec_bytes(), prev_hash@);
            let s = encode_suffix(miner@);
            assert forall|n: u64| #[trigger]
                r.preimage(n) == encode_preimage(index, message.spec_bytes(), prev_hash@, n, miner@)
            by {
                assert(r.combined_data@.take(nonce_position as int) =~= p);
                assert(r.combined_data@.skip(nonce_position + 8) =~= s);
            }
        }
        r
    }

    /// Writes `nonce` into the slot; the rest of the buffer is kept.
    pub fn set_nonce(&mut self, nonce: u64)
        requires
            old(self).wf(),
        ensures
            final(self).wf(),
            final(self).nonce_position == old(self).nonce_position,
            final(self).combined_data@ == old(self).preimage(nonce),
            forall|n: u64| #[trigger] final(self).preimage(n) == old(self).preimage(n),
    {
        let bytes = le_digits_of(nonce, 8);
        let pos = self.nonce_position;
        let ghost before = self.combined_data@;
        let len = self.combined_data.len();
        let mut i: usize = 0;
        while i < 8
            invariant
                i <= 8,
                pos == self.nonce_position,
                pos + 8 <= before.len(),
                before.len() == len,
                bytes@ == le_digits(nonce as nat, 8),
                self.combined_data@.len() == before.len(),
                forall|j: int|
                    0 <= j < before.len() ==> #[trigger] self.combined_data@[j] == if pos <= j < pos
                        + i {
                        be_digits(nonce as nat, 8)[j - pos]
                    } else {
                        before[j]
                    },
            decreases 8 - i,
        {
            self.combined_data.set(pos + i, bytes[7 - i]);
            i = i + 1;
        }
        proof {
            assert(self.combined_data@ =~= before.take(pos as int) + be_digits(nonce as nat, 8)
                + before.skip(pos + 8));
            assert(self.combined_data@.take(pos as int) =~= before.take(pos as int));
            assert(self.combined_data@.skip(pos + 8) =~= before.skip(pos + 8));
        }
    }
}

} // verus!
