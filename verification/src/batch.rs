//! Independent board streams and the split of bounded record budgets.
use vstd::prelude::*;
use vstd::string::StringExecFns;

verus! {

/// Whether `(round, index, count)` names a board draw: rounds start at one,
/// a batch holds one or two boards, and the index is within the batch.
pub open spec fn valid_board_batch(round: int, index: int, count: int) -> bool {
    round >= 1 && (count == 1 || count == 2) && 0 <= index < count
}

/// The chance round of the `index`-th board drawn for `round` when every
/// round draws `count` boards. Consecutive rounds alternate traversers; each
/// traverser keeps its own contiguous run of draws.
pub open spec fn chance_round_value(round: int, index: int, count: int) -> int {
    ((round - 1) / 2) * (2 * count) + (round - 1) % 2 + 2 * index + 1
}

/// The chance round used for board `index` of a batch of `count` boards.
pub fn chance_round(round: u64, index: usize, count: usize) -> (r: Result<u64, String>)
    requires
        valid_board_batch(round as int, index as int, count as int) ==> chance_round_value(
            round as int,
            index as int,
            count as int,
        ) <= u64::MAX,
    ensures
        r is Ok <==> valid_board_batch(round as int, index as int, count as int),
        r matches Ok(v) ==> v == chance_round_value(round as int, index as int, count as int),
        r matches Err(e) ==> e@ == "invalid independent board batch"@,
{
    if round == 0 || !(count == 1 || count == 2) || index >= count {
        return Err(String::from_str("invalid independent board batch"));
    }
    let r = round - 1;
    proof {
        assert(0 <= (r / 2) * (2 * count as int)) by (nonlinear_arith)
            requires 0 <= r, 0 <= count;
    }
    Ok((r / 2) * (2 * count as u64) + r % 2 + 2 * index as u64 + 1)
}

/// With one board per round the stream is the round itself.
pub proof fn law_single_board_stream_is_round(round: int)
    requires
        round >= 1,
    ensures
        chance_round_value(round, 0, 1) == round,
{
    let r = round - 1;
    assert(r == (r / 2) * 2 + r % 2);
}

/// Every draw keeps the parity, hence the traverser, of its round.
pub proof fn law_board_stream_preserves_traverser(round: int, index: int, count: int)
    requires
        valid_board_batch(round, index, count),
    ensures
        (chance_round_value(round, index, count) - 1) % 2 == (round - 1) % 2,
        chance_round_value(round, index, count) >= 1,
{
    let r = round - 1;
    let q = r / 2;
    assert(q * (2 * count) == 2 * (q * count)) by (nonlinear_arith);
    assert(q * count >= 0) by (nonlinear_arith) requires q >= 0, count >= 0;
    assert((2 * (q * count) + r % 2 + 2 * index) % 2 == r % 2);
}

/// Distinct draws of one batch size never share a chance round.
pub proof fn law_board_stream_injective(r1: int, i1: int, r2: int, i2: int, count: int)
    requires
        valid_board_batch(r1, i1, count),
        valid_board_batch(r2, i2, count),
        chance_round_value(r1, i1, count) == chance_round_value(r2, i2, count),
    ensures
        r1 == r2 && i1 == i2,
{
    let a = r1 - 1;
    let b = r2 - 1;
    let qa = a / 2;
    let qb = b / 2;
    assert(a == 2 * qa + a % 2);
    assert(b == 2 * qb + b % 2);
    // Within a block of 2 * count draws the offset a % 2 + 2 * i is unique.
    assert(qa * (2 * count) + (a % 2 + 2 * i1) == qb * (2 * count) + (b % 2 + 2 * i2));
    assert(0 <= a % 2 + 2 * i1 < 2 * count);
    assert(0 <= b % 2 + 2 * i2 < 2 * count);
    lemma_block_offset_unique(qa, a % 2 + 2 * i1, qb, b % 2 + 2 * i2, 2 * count);
}

proof fn lemma_block_offset_unique(q1: int, o1: int, q2: int, o2: int, n: int)
    requires
        n > 0,
        q1 >= 0,
        q2 >= 0,
        0 <= o1 < n,
        0 <= o2 < n,
        q1 * n + o1 == q2 * n + o2,
    ensures
        q1 == q2,
        o1 == o2,
{
    if q1 < q2 {
        assert(q1 * n + n <= q2 * n) by (nonlinear_arith)
            requires q1 < q2, n > 0;
    } else if q2 < q1 {
        assert(q2 * n + n <= q1 * n) by (nonlinear_arith)
            requires q2 < q1, n > 0;
    }
}

/// With two boards per round every positive chance round is drawn exactly
/// once: the two traversers' streams together cover the whole stream.
pub proof fn law_two_board_stream_covers_every_round(v: int)
    requires
        v >= 1,
    ensures
        valid_board_batch(((v - 1) / 4) * 2 + (v - 1) % 2 + 1, ((v - 1) % 4) / 2, 2),
        chance_round_value(((v - 1) / 4) * 2 + (v - 1) % 2 + 1, ((v - 1) % 4) / 2, 2) == v,
{
    let w = v - 1;
    let round = (w / 4) * 2 + w % 2 + 1;
    let index = (w % 4) / 2;
    let r = round - 1;
    assert(r / 2 == w / 4 && r % 2 == w % 2);
    assert(w == (w / 4) * 4 + (w % 4));
    assert(w % 4 == 2 * ((w % 4) / 2) + w % 2);
}

/// Records retained for each postflop street out of a total `capacity`:
/// a quarter for the flop, three tenths for the turn (each at least one),
/// and the remainder for the river.
pub open spec fn street_capacities(capacity: int) -> (int, int, int) {
    let flop = if capacity / 4 >= 1 { capacity / 4 } else { 1 };
    let turn = if capacity * 3 / 10 >= 1 { capacity * 3 / 10 } else { 1 };
    (flop, turn, capacity - flop - turn)
}

/// Split a record budget across flop, turn and river.
pub fn attribution_street_capacities(capacity: usize) -> (caps: [usize; 3])
    requires
        capacity >= 2,
        capacity * 3 <= usize::MAX,
    ensures
        (caps[0] as int, caps[1] as int, caps[2] as int) == street_capacities(capacity as int),
        caps[0] + caps[1] + caps[2] == capacity,
        caps[0] >= 1 && caps[1] >= 1,
{
    let quarter = capacity / 4;
    let flop = if quarter >= 1 { quarter } else { 1 };
    let tenths = capacity * 3 / 10;
    let turn = if tenths >= 1 { tenths } else { 1 };
    [flop, turn, capacity - flop - turn]
}

/// The share of `capacity` given to `worker` out of `workers`: an equal
/// quotient, plus one for each of the first `capacity % workers` workers.
pub open spec fn worker_share(capacity: int, worker: int, workers: int) -> int {
    capacity / workers + if worker < capacity % workers { 1int } else { 0int }
}

/// Sum of the shares of workers `0..k`.
pub open spec fn shares_before(capacity: int, workers: int, k: int) -> int
    decreases k,
{
    if k <= 0 {
        0
    } else {
        shares_before(capacity, workers, k - 1) + worker_share(capacity, k - 1, workers)
    }
}

/// One worker's part of each street's record budget.
pub fn split_attribution_capacities(total: [usize; 3], worker: usize, workers: usize) -> (share: [usize; 3])
    requires
        workers > 0,
    ensures
        forall|s: int|
            0 <= s < 3 ==> share[s] as int == worker_share(total[s] as int, worker as int, workers as int),
{
    let mut share = [0usize; 3];
    let mut s: usize = 0;
    while s < 3
        invariant
            0 <= s <= 3,
            workers > 0,
            forall|t: int|
                0 <= t < s ==> share[t] as int == worker_share(total[t] as int, worker as int, workers as int),
        decreases 3 - s,
    {
        let capacity = total[s];
        proof {
            assert(capacity / workers + 1 <= capacity + 1 <= usize::MAX + 1);
            if capacity % workers > 0 {
                assert(capacity / workers < capacity) by (nonlinear_arith)
                    requires capacity % workers > 0, workers > 0, capacity >= 0;
            }
        }
        share[s] = capacity / workers + if worker < capacity % workers { 1 } else { 0 };
        s += 1;
    }
    share
}

/// The shares of all workers add up to the whole budget, and no two shares
/// differ by more than one record.
pub proof fn law_worker_shares_partition_budget(capacity: int, workers: int)
    requires
        capacity >= 0,
        workers > 0,
    ensures
        shares_before(capacity, workers, workers) == capacity,
        forall|a: int, b: int|
            0 <= a < workers && 0 <= b < workers ==> worker_share(capacity, a, workers) - worker_share(
                capacity,
                b,
                workers,
            ) <= 1,
{
    lemma_shares_before(capacity, workers, workers);
    assert(workers * (capacity / workers) + capacity % workers == capacity) by (nonlinear_arith)
        requires workers > 0;
}

proof fn lemma_shares_before(capacity: int, workers: int, k: int)
    requires
        capacity >= 0,
        workers > 0,
        0 <= k <= workers,
    ensures
        shares_before(capacity, workers, k) == k * (capacity / workers) + if k < capacity % workers {
            k
        } else {
            capacity % workers
        },
    decreases k,
{
    let q = capacity / workers;
    let m = capacity % workers;
    if k > 0 {
        lemma_shares_before(capacity, workers, k - 1);
        assert(k * q == (k - 1) * q + q) by (nonlinear_arith);
        assert(shares_before(capacity, workers, k) == shares_before(capacity, workers, k - 1)
            + worker_share(capacity, k - 1, workers));
    } else {
        assert(0 * q == 0);
        assert(shares_before(capacity, workers, 0) == 0);
    }
}

} // verus!
