//! Blocks, their canonical digests and the difficulty predicate.
use vstd::prelude::*;
use vstd::arithmetic::power2::{pow2, lemma2_to64, lemma_pow2_strictly_increases, lemma_pow2_pos, lemma_pow2_unfold};
use vstd::arithmetic::div_mod::lemma_mod_breakdown;
use vstd::bits::lemma_u16_shl_is_mul;
use crate::text::{sha256_of, sha256_text, push_char, push_text, push_decimal, push_hex, hex, decimal};

verus! {

/// Whether digest `h` has at least `d` trailing zero bits: its last `d / 8`
/// bytes are zero, and the byte before them is a multiple of `2^(d % 8)`.
pub open spec fn satisfies(d: u8, h: Seq<u8>) -> bool {
    &&& forall|i: int| 0 <= i < d / 8 ==> #[trigger] h[31 - i] == 0
    &&& d % 8 > 0 ==> h[31 - d / 8] as nat % pow2((d % 8) as nat) == 0
}

/// The text `hex(prev):generation:difficulty:data:proof`.
pub open spec fn preimage(
    prev: Seq<u8>,
    generation: u64,
    difficulty: u8,
    data: Seq<char>,
    proof: u64,
) -> Seq<char> {
    hex(prev) + seq![':'] + decimal(generation as nat) + seq![':'] + decimal(difficulty as nat)
        + seq![':'] + data + seq![':'] + decimal(proof as nat)
}

/// One link of the chain. `proof` is absent until the block is mined.
#[derive(Debug, Clone)]
pub struct Block {
    pub prev_hash: crate::text::Hash,
    pub generation: u64,
    pub difficulty: u8,
    pub data: String,
    pub proof: Option<u64>,
}

impl Block {
    /// The pre-image text of this block with `proof` as its nonce.
    pub open spec fn preimage_for(&self, proof: u64) -> Seq<char> {
        preimage(self.prev_hash@, self.generation, self.difficulty, self.data@, proof)
    }

    /// The digest of this block with `proof` as its nonce.
    pub open spec fn digest_for(&self, proof: u64) -> Seq<u8> {
        sha256_of(self.preimage_for(proof))
    }

    pub open spec fn valid_for(&self, proof: u64) -> bool {
        satisfies(self.difficulty, self.digest_for(proof))
    }

    pub open spec fn spec_is_valid(&self) -> bool {
        match self.proof {
            Some(p) => self.valid_for(p),
            None => false,
        }
    }

    /// The lowest nonce in `[lo, hi)` that makes this block valid, if any.
    pub open spec fn first_valid(&self, lo: int, hi: int) -> Option<u64>
        decreases hi - lo,
    {
        if lo >= hi {
            None
        } else if self.valid_for(lo as u64) {
            Some(lo as u64)
        } else {
            self.first_valid(lo + 1, hi)
        }
    }

    pub fn initial(difficulty: u8) -> (b: Block)
        ensures
            forall|i: int| 0 <= i < 32 ==> b.prev_hash@[i] == 0,
            b.generation == 0,
            b.difficulty == difficulty,
            b.data@ == Seq::<char>::empty(),
            b.proof is None,
    {
        Block {
            prev_hash: [0u8; 32],
            generation: 0,
            difficulty,
            data: String::new(),
            proof: None,
        }
    }

    /// A block that can follow the mined block `previous`.
    pub fn next(previous: &Block, data: String) -> (b: Block)
        requires
            previous.proof is Some,
            previous.generation < u64::MAX,
        ensures
            b.prev_hash@ == previous.digest_for(previous.proof->0),
            b.generation == previous.generation + 1,
            b.difficulty == previous.difficulty,
            b.data@ == data@,
            b.proof is None,
    {
        Block {
            prev_hash: previous.hash(),
            generation: previous.generation + 1,
            difficulty: previous.difficulty,
            data,
            proof: None,
        }
    }

    pub fn hash_string_for_proof(&self, proof: u64) -> (r: String)
        ensures
            r@ == self.preimage_for(proof),
    {
        let mut s = String::new();
        push_hex(&mut s, &self.prev_hash);
        push_char(&mut s, ':');
        push_decimal(&mut s, self.generation);
        push_char(&mut s, ':');
        push_decimal(&mut s, self.difficulty as u64);
        push_char(&mut s, ':');
        push_text(&mut s, self.data.as_str());
        push_char(&mut s, ':');
        push_decimal(&mut s, proof);
        assert(s@ =~= self.preimage_for(proof));
        s
    }

    pub fn hash_string(&self) -> (r: String)
        requires
            self.proof is Some,
        ensures
            r@ == self.preimage_for(self.proof->0),
    {
        let p = self.proof.unwrap();
        self.hash_string_for_proof(p)
    }

    pub fn hash_for_proof(&self, proof: u64) -> (r: crate::text::Hash)
        ensures
            r@ == self.digest_for(proof),
    {
        let s = self.hash_string_for_proof(proof);
        sha256_text(s.as_str())
    }

    pub fn hash(&self) -> (r: crate::text::Hash)
        requires
            self.proof is Some,
        ensures
            r@ == self.digest_for(self.proof->0),
    {
        let p = self.proof.unwrap();
        self.hash_for_proof(p)
    }

    pub fn set_proof(&mut self, proof: u64)
        ensures
            final(self).proof == Some(proof),
            final(self).prev_hash == old(self).prev_hash,
            final(self).generation == old(self).generation,
            final(self).difficulty == old(self).difficulty,
            final(self).data == old(self).data,
    {
        self.proof = Some(proof);
    }

    pub fn hash_satisfies_difficulty(difficulty: u8, hash: crate::text::Hash) -> (r: bool)
        ensures
            r == satisfies(difficulty, hash@),
    {
        if difficulty == 0 {
            return true;
        }
        let n_bytes = (difficulty / 8) as usize;
        let n_bits = difficulty % 8;
        let mut i: usize = 0;
        while i < n_bytes
            invariant
                n_bytes == difficulty / 8,
                i <= n_bytes,
                forall|j: int| 0 <= j < i ==> #[trigger] hash@[31 - j] == 0,
            decreases n_bytes - i,
        {
            if hash[31 - i] != 0 {
                return false;
            }
            i = i + 1;
        }
        if n_bits > 0 {
            proof {
                lemma2_to64();
                lemma_pow2_strictly_increases(n_bits as nat, 8);
                lemma_u16_shl_is_mul(1, n_bits as u16);
            }
            let m: u16 = 1u16 << (n_bits as u16);
            if hash[31 - n_bytes] as u16 % m != 0 {
                return false;
            }
        }
        true
    }

    pub fn is_valid_for_proof(&self, proof: u64) -> (r: bool)
        ensures
            r == self.valid_for(proof),
    {
        Self::hash_satisfies_difficulty(self.difficulty, self.hash_for_proof(proof))
    }

    /// The lowest nonce in `[start, end)` that makes this block valid, if any.
    pub fn find_proof(&self, start: u64, end: u64) -> (r: Option<u64>)
        ensures
            r == self.first_valid(start as int, end as int),
    {
        let mut p = start;
        while p < end
            invariant
                start <= p,
                p < end ==> self.first_valid(start as int, end as int) == self.first_valid(
                    p as int,
                    end as int,
                ),
                p >= end ==> self.first_valid(start as int, end as int) is None,
            decreases end - p,
        {
            if self.is_valid_for_proof(p) {
                return Some(p);
            }
            p = p + 1;
        }
        None
    }

    /// Mines by scanning every nonce in ascending order; the proof becomes
    /// the lowest valid nonce below `u64::MAX`, or `u64::MAX` when there is
    /// none.
    pub fn mine_serial(&mut self)
        ensures
            final(self).proof == Some(
                match old(self).first_valid(0, u64::MAX as int) {
                    Some(p) => p,
                    None => u64::MAX,
                },
            ),
            final(self).prev_hash == old(self).prev_hash,
            final(self).generation == old(self).generation,
            final(self).difficulty == old(self).difficulty,
            final(self).data == old(self).data,
    {
        let p = match self.find_proof(0, u64::MAX) {
            Some(p) => p,
            None => u64::MAX,
        };
        self.proof = Some(p);
    }

    pub fn is_valid(&self) -> (r: bool)
        ensures
            r == self.spec_is_valid(),
    {
        match self.proof {
            Some(p) => self.is_valid_for_proof(p),
            None => false,
        }
    }
}


/// Bit `k` of a digest read from its end: bit 0 is the lowest bit of the
/// last byte, bit 8 the lowest bit of the byte before it.
pub open spec fn low_bit(h: Seq<u8>, k: int) -> nat {
    (h[31 - k / 8] as nat / pow2((k % 8) as nat)) % 2
}

/// `x` is a multiple of `2^b` exactly when its `b` lowest bits are zero.
proof fn lemma_mod_pow2_bits(x: nat, b: nat)
    ensures
        x % pow2(b) == 0 <==> forall|j: nat| j < b ==> #[trigger] ((x / pow2(j)) % 2) == 0,
    decreases b,
{
    if b == 0 {
        lemma2_to64();
    } else {
        let c = (b - 1) as nat;
        lemma_mod_pow2_bits(x, c);
        lemma_pow2_pos(c);
        lemma_pow2_unfold(b);
        lemma_mod_breakdown(x as int, pow2(c) as int, 2);
        assert(pow2(c) * 2 == pow2(b));
        let hi = (x / pow2(c)) % 2;
        let lo = x % pow2(c);
        assert(x % pow2(b) == pow2(c) * hi + lo);
        assert(pow2(c) * hi + lo == 0 <==> hi == 0 && lo == 0) by (nonlinear_arith)
            requires
                pow2(c) > 0,
                hi >= 0,
                lo >= 0,
        ;
    }
}

/// The difficulty predicate holds exactly when the `d` lowest bits of the
/// digest, read from its last byte, are all zero.
pub proof fn lemma_satisfies_low_bits(d: u8, h: Seq<u8>)
    requires
        h.len() == 32,
    ensures
        satisfies(d, h) <==> forall|k: int| 0 <= k < d ==> #[trigger] low_bit(h, k) == 0,
{
    let nb = d / 8;
    let r = d % 8;
    if satisfies(d, h) {
        assert forall|k: int| 0 <= k < d implies #[trigger] low_bit(h, k) == 0 by {
            let x = h[31 - k / 8] as nat;
            lemma_pow2_pos((k % 8) as nat);
            if k / 8 < nb {
                assert(x == 0);
                assert(0nat / pow2((k % 8) as nat) == 0);
            } else {
                lemma_mod_pow2_bits(x, r as nat);
                assert(((x / pow2((k % 8) as nat)) % 2) == 0);
            }
        }
    }
    if forall|k: int| 0 <= k < d ==> #[trigger] low_bit(h, k) == 0 {
        assert forall|i: int| 0 <= i < d / 8 implies #[trigger] h[31 - i] == 0 by {
            let x = h[31 - i] as nat;
            lemma_mod_pow2_bits(x, 8);
            assert forall|j: nat| j < 8 implies #[trigger] ((x / pow2(j)) % 2) == 0 by {
                assert(low_bit(h, 8 * i + j) == 0);
            }
            lemma2_to64();
        }
        if r > 0 {
            let x = h[31 - nb] as nat;
            lemma_mod_pow2_bits(x, r as nat);
            assert forall|j: nat| j < r implies #[trigger] ((x / pow2(j)) % 2) == 0 by {
                assert(low_bit(h, 8 * nb + j) == 0);
            }
        }
    }
}

/// A valid block's own digest meets its difficulty.
pub proof fn lemma_valid_block_satisfies(b: Block)
    requires
        b.proof is Some,
        b.spec_is_valid(),
    ensures
        satisfies(b.difficulty, b.digest_for(b.proof->0)),
{
}

/// The digest for a nonce depends only on the previous digest, generation,
/// difficulty, data and that nonce: not on the proof the block holds.
pub proof fn lemma_digest_depends_on_fields(a: Block, b: Block, p: u64)
    requires
        a.prev_hash == b.prev_hash,
        a.generation == b.generation,
        a.difficulty == b.difficulty,
        a.data@ == b.data@,
    ensures
        a.digest_for(p) == b.digest_for(p),
{
}

/// A block that is `b` with its proof set to `p` is valid exactly when `p`
/// is a valid proof for `b`.
pub proof fn lemma_set_proof_then_valid(b: Block, c: Block, p: u64)
    requires
        c.prev_hash == b.prev_hash,
        c.generation == b.generation,
        c.difficulty == b.difficulty,
        c.data == b.data,
        c.proof == Some(p),
    ensures
        c.spec_is_valid() == b.valid_for(p),
{
}

/// At difficulty zero every nonce is a valid proof.
pub proof fn lemma_difficulty_zero_all_valid(b: Block, p: u64)
    requires
        b.difficulty == 0,
    ensures
        b.valid_for(p),
        forall|lo: int, hi: int| 0 <= lo < hi ==> #[trigger] b.first_valid(lo, hi) == Some(lo as u64),
{
}

/// At difficulty eight a satisfying digest ends in a zero byte.
pub proof fn lemma_difficulty_eight_last_byte(h: Seq<u8>)
    requires
        satisfies(8, h),
    ensures
        h[31] == 0,
{
    assert(h[31 - 0] == 0);
}


/// How many chunks a proof search is cut into.
pub const PROOF_CHUNKS: u64 = 2345;

/// The end of the range searched for a proof: `8 * 2^difficulty`.
pub fn proof_range_end(difficulty: u8) -> (r: u64)
    requires
        difficulty <= 60,
    ensures
        r == 8 * pow2(difficulty as nat),
{
    proof {
        lemma_pow2_strictly_increases(difficulty as nat, 61);
        vstd::arithmetic::power2::lemma2_to64_rest();
        vstd::bits::lemma_u64_shl_is_mul(8, difficulty as u64);
    }
    8u64 << (difficulty as u64)
}

} // verus!
