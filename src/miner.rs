//! Splitting a nonce range into chunks, scanning a chunk, and choosing the
//! answer from the outcomes that the workers report.
use vstd::prelude::*;
use std::sync::Arc;
use crate::block::Block;
use crate::queue::Task;
use vstd::arithmetic::div_mod::lemma_fundamental_div_mod;

verus! {

/// `ceil(a / b)`.
pub open spec fn ceil_div(a: int, b: int) -> int {
    a / b + if a % b == 0 {
        0int
    } else {
        1int
    }
}

/// The width of each chunk when `[start, end)` is cut into `chunks` pieces.
pub open spec fn chunk_width(start: u64, end: u64, chunks: u64) -> int {
    ceil_div(end - start, chunks as int)
}

/// Chunk `i` of the plan: `[start + i*w, min(start + (i+1)*w, end))`.
pub open spec fn chunk(start: u64, end: u64, w: int, i: int) -> (u64, u64) {
    let lo = start + i * w;
    let hi = start + (i + 1) * w;
    ((if lo < end { lo } else { end as int }) as u64, (if hi < end { hi } else { end as int }) as u64)
}

/// `plan` holds exactly the non-empty chunks of `[start, end)`, in order.
pub open spec fn is_plan(start: u64, end: u64, chunks: u64, plan: Seq<(u64, u64)>) -> bool {
    let w = chunk_width(start, end, chunks);
    &&& forall|i: int| 0 <= i < plan.len() ==> #[trigger] plan[i] == chunk(start, end, w, i)
    &&& plan.len() * w >= end - start
    &&& plan.len() == 0 || (plan.len() - 1) * w < end - start
    &&& end <= start ==> plan.len() == 0
}

/// Cuts `[start, end)` into at most `chunks` contiguous pieces of equal
/// width (the last may be shorter), skipping empty ones.
pub fn plan_chunks(start: u64, end: u64, chunks: u64) -> (r: Vec<(u64, u64)>)
    requires
        chunks > 0,
    ensures
        is_plan(start, end, chunks, r@),
{
    let mut v: Vec<(u64, u64)> = Vec::new();
    if end <= start {
        return v;
    }
    let len = end - start;
    let q = len / chunks;
    let w = if len % chunks == 0 {
        q
    } else {
        proof {
            lemma_fundamental_div_mod(len as int, chunks as int);
            assert(q < u64::MAX) by (nonlinear_arith)
                requires
                    len == chunks * q + len % chunks,
                    chunks >= 2,
                    q >= 0,
                    len % chunks >= 0,
                    len <= u64::MAX,
            ;
        }
        q + 1
    };
    assert(w == chunk_width(start, end, chunks));
    assert(w >= 1) by (nonlinear_arith)
        requires
            len > 0,
            chunks > 0,
            w == len / chunks + if len % chunks == 0 { 0int } else { 1int },
    ;
    let mut lo = start;
    assert(v@.len() == 0);
    assert(v@.len() * w == 0) by (nonlinear_arith) requires v@.len() == 0;
    while lo < end
        invariant
            start < end,
            w >= 1,
            w == chunk_width(start, end, chunks),
            start <= lo <= end,
            lo < end ==> lo == start + v@.len() * w,
            lo == end ==> v@.len() > 0 && v@.len() * w >= end - start && (v@.len() - 1) * w < end - start,
            v@.len() * w <= end - start || lo == end,
            forall|i: int| 0 <= i < v@.len() ==> #[trigger] v@[i] == chunk(start, end, w as int, i),
        decreases end - lo,
    {
        let hi = if end - lo > w { lo + w } else { end };
        let ghost k = v@.len();
        proof {
            assert((k + 1) * w == k * w + w) by (nonlinear_arith);
            assert(k * w >= 0) by (nonlinear_arith) requires k >= 0, w >= 1;
        }
        v.push((lo, hi));
        lo = hi;
    }
    v
}

/// The search of one chunk `[start, end)` for a proof of `block`.
pub struct MiningTask {
    pub block: Arc<Block>,
    pub start: u64,
    pub end: u64,
}

impl MiningTask {
    /// The lowest nonce of the chunk that makes the block valid, if any.
    pub fn scan(&self) -> (r: Option<u64>)
        ensures
            r == self.block.first_valid(self.start as int, self.end as int),
    {
        self.block.find_proof(self.start, self.end)
    }
}

impl Task for MiningTask {
    type Output = u64;

    fn run(&self) -> (r: Option<u64>)
        ensures
            r == self.block.first_valid(self.start as int, self.end as int),
    {
        self.scan()
    }
}


/// The answer that a stream of reported outcomes gives: the first proof
/// reported, or `end` when none of them holds one.
pub open spec fn first_found(arrivals: Seq<Option<u64>>, end: u64) -> u64
    decreases arrivals.len(),
{
    if arrivals.len() == 0 {
        end
    } else {
        match arrivals[0] {
            Some(p) => p,
            None => first_found(arrivals.drop_first(), end),
        }
    }
}

/// Whether the outcomes `seen`, out of `expected`, already decide the answer.
pub open spec fn settled(seen: Seq<Option<u64>>, expected: nat) -> bool {
    seen.len() == expected || (seen.len() > 0 && seen.last() is Some)
}

/// What each chunk of `plan` yields when scanned for a proof of `block`.
pub open spec fn outcomes(block: Block, plan: Seq<(u64, u64)>) -> Seq<Option<u64>> {
    plan.map_values(|c: (u64, u64)| block.first_valid(c.0 as int, c.1 as int))
}

/// Whether `x` is what scanning some chunk of `plan` yields: the lowest
/// valid nonce of that chunk.
pub open spec fn is_chunk_outcome(block: Block, plan: Seq<(u64, u64)>, x: u64) -> bool {
    exists|j: int|
        0 <= j < plan.len() && #[trigger] block.first_valid(plan[j].0 as int, plan[j].1 as int)
            == Some(x)
}

/// Whether `x` is the lowest valid nonce of chunk `j` of `[start, end)` cut
/// into `chunks` pieces, for some non-empty chunk `j`.
pub open spec fn is_range_chunk_outcome(block: Block, start: u64, end: u64, chunks: u64, x: u64) -> bool {
    let w = chunk_width(start, end, chunks);
    exists|j: int|
        0 <= j && j * w < end - start && block.first_valid(
            (#[trigger] chunk(start, end, w, j)).0 as int,
            chunk(start, end, w, j).1 as int,
        ) == Some(x)
}

/// An outcome of a chunk of the plan is the outcome of a non-empty chunk
/// of the range.
proof fn lemma_chunk_outcome_in_range(
    block: Block,
    start: u64,
    end: u64,
    chunks: u64,
    plan: Seq<(u64, u64)>,
    x: u64,
)
    requires
        chunks > 0,
        is_plan(start, end, chunks, plan),
        is_chunk_outcome(block, plan, x),
    ensures
        is_range_chunk_outcome(block, start, end, chunks, x),
{
    let w = chunk_width(start, end, chunks);
    let j = choose|j: int|
        0 <= j < plan.len() && #[trigger] block.first_valid(plan[j].0 as int, plan[j].1 as int)
            == Some(x);
    lemma_width_positive(start, end, chunks);
    let n = plan.len() as int;
    assert(j * w < end - start) by (nonlinear_arith)
        requires
            0 <= j < n,
            w >= 1,
            (n - 1) * w < end - start,
    ;
    assert(plan[j] == chunk(start, end, w, j));
}

/// Whether some nonce in `[start, end)` makes `block` valid.
pub open spec fn has_proof_in(block: Block, start: u64, end: u64) -> bool {
    exists|p: u64| start <= p < end && #[trigger] block.valid_for(p)
}

/// Gathers the outcomes of the chunk searches as they arrive and decides
/// the answer: the first proof reported, or `end` once every chunk has
/// reported none.
pub struct Collector {
    end: u64,
    expected: usize,
    received: usize,
    found: Option<u64>,
    seen: Ghost<Seq<Option<u64>>>,
}

impl Collector {
    pub closed spec fn seen(&self) -> Seq<Option<u64>> {
        self.seen@
    }

    pub closed spec fn end_of(&self) -> u64 {
        self.end
    }

    pub closed spec fn expected(&self) -> nat {
        self.expected as nat
    }

    pub closed spec fn wf(&self) -> bool {
        &&& self.received == self.seen@.len()
        &&& self.received <= self.expected
        &&& match self.found {
            None => forall|i: int| 0 <= i < self.seen@.len() ==> #[trigger] self.seen@[i] is None,
            Some(p) => self.seen@.len() > 0 && self.seen@.last() == Some(p) && forall|i: int|
                0 <= i < self.seen@.len() - 1 ==> #[trigger] self.seen@[i] is None,
        }
    }

    /// A collector for `expected` chunk searches over a range that ends at `end`.
    pub fn new(end: u64, expected: usize) -> (c: Collector)
        ensures
            c.wf(),
            c.seen() == Seq::<Option<u64>>::empty(),
            c.end_of() == end,
            c.expected() == expected,
    {
        Collector { end, expected, received: 0, found: None, seen: Ghost(Seq::empty()) }
    }

    /// Records the outcome of one more chunk search.
    pub fn report(&mut self, outcome: Option<u64>)
        requires
            old(self).wf(),
            !settled(old(self).seen(), old(self).expected()),
        ensures
            final(self).wf(),
            final(self).seen() == old(self).seen().push(outcome),
            final(self).end_of() == old(self).end_of(),
            final(self).expected() == old(self).expected(),
    {
        self.received = self.received + 1;
        self.seen = Ghost(self.seen@.push(outcome));
        if outcome.is_some() {
            self.found = outcome;
        }
    }

    /// The answer, once the outcomes seen so far decide it.
    pub fn answer(&self) -> (r: Option<u64>)
        requires
            self.wf(),
        ensures
            r == if settled(self.seen(), self.expected()) {
                Some(first_found(self.seen(), self.end_of()))
            } else {
                None
            },
    {
        proof {
            lemma_first_found_of_nones(self.seen@, self.end);
        }
        match self.found {
            Some(p) => Some(p),
            None => if self.received == self.expected {
                Some(self.end)
            } else {
                None
            },
        }
    }
}

/// `first_found` of a stream whose outcomes are all empty but possibly the
/// last.
proof fn lemma_first_found_of_nones(s: Seq<Option<u64>>, end: u64)
    requires
        forall|i: int| 0 <= i < s.len() - 1 ==> #[trigger] s[i] is None,
    ensures
        s.len() > 0 && s.last() is Some ==> first_found(s, end) == s.last()->0,
        (forall|i: int| 0 <= i < s.len() ==> #[trigger] s[i] is None) ==> first_found(s, end) == end,
    decreases s.len(),
{
    if s.len() > 0 {
        let t = s.drop_first();
        assert forall|i: int| 0 <= i < t.len() - 1 implies #[trigger] t[i] is None by {
            assert(t[i] == s[i + 1]);
        }
        lemma_first_found_of_nones(t, end);
        if s.len() > 1 {
            assert(t.last() == s.last());
        }
        assert((forall|i: int| 0 <= i < s.len() ==> #[trigger] s[i] is None) ==> (forall|i: int|
            0 <= i < t.len() ==> #[trigger] t[i] is None)) by {
            if forall|i: int| 0 <= i < s.len() ==> #[trigger] s[i] is None {
                assert forall|i: int| 0 <= i < t.len() implies #[trigger] t[i] is None by {
                    assert(t[i] == s[i + 1]);
                }
            }
        }
    }
}


/// What scanning `[lo, hi)` yields: the lowest valid nonce there, or nothing
/// when none is valid.
proof fn lemma_first_valid(block: Block, lo: int, hi: int)
    requires
        0 <= lo,
        hi <= u64::MAX + 1,
    ensures
        match block.first_valid(lo, hi) {
            Some(q) => lo <= q < hi && block.valid_for(q) && forall|r: u64|
                lo <= r < q ==> !#[trigger] block.valid_for(r),
            None => forall|r: u64| lo <= r < hi ==> !#[trigger] block.valid_for(r),
        },
    decreases hi - lo,
{
    if lo < hi && !block.valid_for(lo as u64) {
        lemma_first_valid(block, lo + 1, hi);
    }
}

/// A non-empty range has chunks of width at least one.
proof fn lemma_width_positive(start: u64, end: u64, chunks: u64)
    requires
        chunks > 0,
        start < end,
    ensures
        chunk_width(start, end, chunks) >= 1,
{
    let len: int = end - start;
    let c: int = chunks as int;
    let w = chunk_width(start, end, chunks);
    lemma_fundamental_div_mod(len, c);
    assert(w >= 1) by (nonlinear_arith)
        requires
            len > 0,
            c > 0,
            len == c * (len / c) + len % c,
            0 <= len % c < c,
            w == len / c + if len % c == 0 { 0int } else { 1int },
    ;
}

/// Every nonce of the range lies in some chunk of the plan, and every chunk
/// lies inside the range.
proof fn lemma_plan_covers(start: u64, end: u64, chunks: u64, plan: Seq<(u64, u64)>, p: u64)
    requires
        chunks > 0,
        is_plan(start, end, chunks, plan),
        start <= p < end,
    ensures
        exists|k: int| 0 <= k < plan.len() && #[trigger] plan[k].0 <= p < plan[k].1,
{
    let len: int = end - start;
    let w = chunk_width(start, end, chunks);
    lemma_width_positive(start, end, chunks);
    let off = p - start;
    let k = off / w;
    lemma_fundamental_div_mod(off, w);
    let n = plan.len() as int;
    assert(0 <= k && k * w <= off && off < (k + 1) * w && k < n) by (nonlinear_arith)
        requires
            w >= 1,
            0 <= off < len,
            off == w * k + off % w,
            0 <= off % w < w,
            n * w >= len,
    ;
    assert(plan[k] == chunk(start, end, w, k));
    assert(plan[k].0 <= p < plan[k].1);
}

/// Each chunk of a plan lies inside the range.
proof fn lemma_plan_inside(start: u64, end: u64, chunks: u64, plan: Seq<(u64, u64)>, k: int)
    requires
        chunks > 0,
        is_plan(start, end, chunks, plan),
        0 <= k < plan.len(),
    ensures
        start <= plan[k].0,
        plan[k].1 <= end,
{
    let w = chunk_width(start, end, chunks);
    lemma_width_positive(start, end, chunks);
    assert(k * w >= 0) by (nonlinear_arith)
        requires
            k >= 0,
            w >= 1,
    ;
    assert(plan[k] == chunk(start, end, w, k));
}

/// On a stream that holds some proof, `first_found` is one of the reported
/// proofs.
proof fn lemma_first_found_is_reported(s: Seq<Option<u64>>, end: u64)
    ensures
        (exists|i: int| 0 <= i < s.len() && #[trigger] s[i] is Some) ==> s.contains(
            Some(first_found(s, end)),
        ),
    decreases s.len(),
{
    if s.len() > 0 {
        let t = s.drop_first();
        lemma_first_found_is_reported(t, end);
        if exists|i: int| 0 <= i < s.len() && #[trigger] s[i] is Some {
            let i = choose|i: int| 0 <= i < s.len() && #[trigger] s[i] is Some;
            if s[0] is Some {
                assert(s[0] == Some(first_found(s, end)));
            } else {
                assert(t[i - 1] is Some);
                let j = choose|j: int| 0 <= j < t.len() && t[j] == Some(first_found(t, end));
                assert(s[j + 1] == t[j]);
            }
        }
    }
}

/// The answer of a nonce search. The chunks of the plan are scanned, their
/// outcomes arrive in any order, and the collector stops at the first proof
/// or once every chunk has reported. If some nonce of `[start, end)` is
/// valid, the answer is a valid nonce of that range; if none is, the answer
/// is `end`.
pub proof fn lemma_search_answer(
    block: Block,
    start: u64,
    end: u64,
    chunks: u64,
    plan: Seq<(u64, u64)>,
    arrivals: Seq<Option<u64>>,
    k: int,
)
    requires
        chunks > 0,
        is_plan(start, end, chunks, plan),
        arrivals.to_multiset() == outcomes(block, plan).to_multiset(),
        0 <= k <= arrivals.len(),
        settled(arrivals.take(k), arrivals.len()),
    ensures
        has_proof_in(block, start, end) ==> {
            let a = first_found(arrivals.take(k), end);
            start <= a < end && block.valid_for(a) && is_chunk_outcome(block, plan, a)
        },
        !has_proof_in(block, start, end) ==> first_found(arrivals.take(k), end) == end,
{
    broadcast use vstd::seq_lib::group_to_multiset_ensures;

    let outs = outcomes(block, plan);
    let seen = arrivals.take(k);
    lemma_first_found_is_reported(seen, end);
    // Whatever arrives is the outcome of some chunk, so it is a valid nonce
    // of the range.
    assert forall|x: u64| #[trigger] arrivals.contains(Some(x)) implies start <= x < end
        && block.valid_for(x) && is_chunk_outcome(block, plan, x) by {
        assert(outs.to_multiset().count(Some(x)) > 0);
        assert(outs.contains(Some(x)));
        let j = choose|j: int| 0 <= j < outs.len() && outs[j] == Some(x);
        lemma_first_valid(block, plan[j].0 as int, plan[j].1 as int);
        lemma_plan_inside(start, end, chunks, plan, j);
        assert(outs[j] == block.first_valid(plan[j].0 as int, plan[j].1 as int));
        assert(plan[j].0 <= x < plan[j].1);
        assert(block.valid_for(x));
        assert(block.first_valid(plan[j].0 as int, plan[j].1 as int) == Some(x));
    }
    if has_proof_in(block, start, end) {
        let p = choose|p: u64| start <= p < end && #[trigger] block.valid_for(p);
        lemma_plan_covers(start, end, chunks, plan, p);
        let j = choose|j: int| 0 <= j < plan.len() && #[trigger] plan[j].0 <= p < plan[j].1;
        lemma_first_valid(block, plan[j].0 as int, plan[j].1 as int);
        let q = outs[j];
        assert(q is Some);
        assert(outs.contains(q));
        assert(arrivals.to_multiset().count(q) > 0);
        assert(arrivals.contains(q));
        let i = choose|i: int| 0 <= i < arrivals.len() && arrivals[i] == q;
        if k < arrivals.len() {
            assert(seen[k - 1] is Some);
        } else {
            assert(seen =~= arrivals);
            assert(seen[i] is Some);
        }
        let a = first_found(seen, end);
        assert(exists|i: int| 0 <= i < seen.len() && #[trigger] seen[i] is Some);
        assert(seen.contains(Some(a)));
        let m = choose|m: int| 0 <= m < seen.len() && seen[m] == Some(a);
        assert(arrivals[m] == seen[m]);
        assert(arrivals.contains(Some(a)));
        assert(start <= a < end && block.valid_for(a));
    } else {
        assert forall|i: int| 0 <= i < seen.len() implies #[trigger] seen[i] is None by {
            if seen[i] is Some {
                let x = seen[i]->0;
                assert(arrivals[i] == Some(x));
                assert(arrivals.contains(Some(x)));
                assert(block.valid_for(x));
                assert(start <= x < end);
            }
        }
        lemma_first_found_of_nones(seen, end);
    }
}

/// With a single chunk the search is a serial scan: the answer is the
/// lowest valid nonce of `[start, end)`, or `end` when there is none.
pub proof fn lemma_single_chunk_is_serial(
    block: Block,
    start: u64,
    end: u64,
    plan: Seq<(u64, u64)>,
    arrivals: Seq<Option<u64>>,
)
    requires
        is_plan(start, end, 1, plan),
        arrivals == outcomes(block, plan),
        start < end,
    ensures
        plan.len() == 1,
        first_found(arrivals, end) == match block.first_valid(start as int, end as int) {
            Some(q) => q,
            None => end,
        },
{
    let w = chunk_width(start, end, 1);
    assert(w == end - start);
    assert(plan.len() == 1) by (nonlinear_arith)
        requires
            plan.len() * w >= end - start,
            plan.len() == 0 || (plan.len() - 1) * w < end - start,
            w == end - start,
            w > 0,
    ;
    assert(plan[0] == chunk(start, end, w, 0));
    assert(arrivals[0] == block.first_valid(start as int, end as int));
    assert(arrivals.drop_first().len() == 0);
    assert(first_found(arrivals.drop_first(), end) == end);
}


/// Searches `[start, end)` chunk by chunk, in ascending order, as a pool of
/// one worker does: the answer is the lowest valid nonce of the first chunk
/// that holds one, or `end` when none does.
pub fn search_in_order(block: &Block, start: u64, end: u64, chunks: u64) -> (r: u64)
    requires
        chunks > 0,
    ensures
        has_proof_in(*block, start, end) ==> start <= r < end && block.valid_for(r)
            && is_range_chunk_outcome(*block, start, end, chunks, r),
        !has_proof_in(*block, start, end) ==> r == end,
        chunks == 1 ==> r == match block.first_valid(start as int, end as int) {
            Some(q) => q,
            None => end,
        },
{
    let plan = plan_chunks(start, end, chunks);
    let ghost outs = outcomes(*block, plan@);
    let mut c = Collector::new(end, plan.len());
    let mut i: usize = 0;
    loop
        invariant
            c.wf(),
            c.end_of() == end,
            c.expected() == plan@.len(),
            i <= plan@.len(),
            c.seen() == outs.take(i as int),
            is_plan(start, end, chunks, plan@),
            chunks > 0,
            outs == outcomes(*block, plan@),
        decreases plan@.len() - i,
    {
        match c.answer() {
            Some(a) => {
                proof {
                    lemma_search_answer(*block, start, end, chunks, plan@, outs, i as int);
                    if has_proof_in(*block, start, end) {
                        lemma_chunk_outcome_in_range(*block, start, end, chunks, plan@, a);
                    }
                    if chunks == 1 {
                        if start < end {
                            lemma_single_chunk_is_serial(*block, start, end, plan@, outs);
                            assert(outs.take(1) =~= outs);
                        } else {
                            assert(block.first_valid(start as int, end as int) is None);
                            assert(outs.take(i as int).len() == 0);
                        }
                    }
                }
                return a;
            },
            None => {},
        }
        let (lo, hi) = plan[i];
        let outcome = block.find_proof(lo, hi);
        c.report(outcome);
        proof {
            assert(outs.take(i as int).push(outcome) =~= outs.take(i as int + 1));
        }
        i = i + 1;
    }
}

} // verus!
