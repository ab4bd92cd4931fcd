//! Planning a range continuation cache build: which canonical flop orbits
//! a seeded shard covers, and how its boards are dealt out to workers.
use vstd::prelude::*;
use crate::digest::{push_le, le_bytes, sha256, sha256_digest};
use crate::flop::CanonicalFlopOrbit;
use crate::order::{bytes_before, compare_bytes, lemma_bytes_order};

verus! {

/// Canonical flop orbits in all.
pub const CANONICAL_FLOP_COUNT: usize = 1755;

/// Domain separator of the seeded orbit order.
pub const ORBIT_ORDER_DOMAIN: [u8; 32] = [
    104, 117, 45, 99, 97, 110, 111, 110, 105, 99, 97, 108, 45, 102, 108, 111, 112, 45, 111, 114, 98, 105, 116, 45,
    111, 114, 100, 101, 114, 45, 118, 49,
];

/// Whether a range continuation cache request is sound: a non-empty window
/// of orbits that stays within the canonical flops, at least one leaf, one
/// to `threads` board workers, a resolver schedule of at least two
/// iterations that starts averaging before its end, at least one thread,
/// and (`uncertainty_valid`) a finite, non-negative value uncertainty.
pub open spec fn range_cache_request_valid(
    maximum_flop_orbits: usize,
    orbit_offset: usize,
    maximum_leaves: usize,
    board_workers: usize,
    threads: usize,
    resolver_iterations: u64,
    resolver_averaging_delay: u64,
    uncertainty_valid: bool,
) -> bool {
    &&& maximum_flop_orbits > 0
    &&& orbit_offset < CANONICAL_FLOP_COUNT
    &&& maximum_flop_orbits <= CANONICAL_FLOP_COUNT - orbit_offset
    &&& maximum_leaves > 0
    &&& board_workers > 0
    &&& board_workers <= threads
    &&& resolver_iterations >= 2
    &&& resolver_averaging_delay < resolver_iterations
    &&& uncertainty_valid
    &&& threads > 0
}

/// Check a range continuation cache request.
pub fn validate_range_cache_request(
    maximum_flop_orbits: usize,
    orbit_offset: usize,
    maximum_leaves: usize,
    board_workers: usize,
    threads: usize,
    resolver_iterations: u64,
    resolver_averaging_delay: u64,
    uncertainty_valid: bool,
) -> (r: Result<(), String>)
    ensures
        r is Ok <==> range_cache_request_valid(
            maximum_flop_orbits,
            orbit_offset,
            maximum_leaves,
            board_workers,
            threads,
            resolver_iterations,
            resolver_averaging_delay,
            uncertainty_valid,
        ),
        r matches Err(e) ==> e@ == "range continuation cache configuration is invalid"@,
{
    if maximum_flop_orbits == 0 || orbit_offset >= CANONICAL_FLOP_COUNT
        || maximum_flop_orbits > CANONICAL_FLOP_COUNT - orbit_offset || maximum_leaves == 0 || board_workers == 0
        || board_workers > threads || resolver_iterations < 2 || resolver_averaging_delay >= resolver_iterations
        || !uncertainty_valid || threads == 0 {
        return Err(String::from_str("range continuation cache configuration is invalid"));
    }
    Ok(())
}

/// The bytes hashed into the seeded order key of a board.
pub open spec fn orbit_frame(seed: u64, board: [u8; 3]) -> Seq<u8> {
    ORBIT_ORDER_DOMAIN@ + le_bytes(seed as int, 8) + seq![board[0], board[1], board[2]]
}

/// The seeded order key of orbit `i`.
pub open spec fn orbit_key(orbits: Seq<CanonicalFlopOrbit>, seed: u64, i: int) -> Seq<u8> {
    sha256_digest(orbit_frame(seed, orbits[i].board))
}

/// Orbit `j` comes before orbit `i` in the seeded order: by key, and by
/// position among equal keys.
pub open spec fn seeded_before(orbits: Seq<CanonicalFlopOrbit>, seed: u64, j: int, i: int) -> bool {
    bytes_before(orbit_key(orbits, seed, j), orbit_key(orbits, seed, i)) || (orbit_key(orbits, seed, j)
        == orbit_key(orbits, seed, i) && j < i)
}

/// How many of the first `n` orbits come before orbit `i`.
pub open spec fn rank_below(orbits: Seq<CanonicalFlopOrbit>, seed: u64, i: int, n: int) -> int
    decreases n,
{
    if n <= 0 {
        0
    } else {
        rank_below(orbits, seed, i, n - 1) + if seeded_before(orbits, seed, n - 1, i) { 1int } else { 0int }
    }
}

/// The position of orbit `i` in the seeded order.
pub open spec fn seeded_rank(orbits: Seq<CanonicalFlopOrbit>, seed: u64, i: int) -> int {
    rank_below(orbits, seed, i, orbits.len() as int)
}

/// The first `n` orbits whose seeded positions lie in `[lo, hi)`, in their
/// given order.
pub open spec fn window_orbits(orbits: Seq<CanonicalFlopOrbit>, seed: u64, lo: int, hi: int, n: int) -> Seq<
    CanonicalFlopOrbit,
>
    decreases n,
{
    if n <= 0 {
        Seq::empty()
    } else {
        let rest = window_orbits(orbits, seed, lo, hi, n - 1);
        let r = seeded_rank(orbits, seed, n - 1);
        if lo <= r < hi { rest.push(orbits[n - 1]) } else { rest }
    }
}

fn orbit_order_key(seed: u64, board: [u8; 3]) -> (key: Vec<u8>)
    ensures
        key@ == sha256_digest(orbit_frame(seed, board)),
{
    let mut frame: Vec<u8> = Vec::new();
    let mut i: usize = 0;
    while i < 32
        invariant
            i <= 32,
            frame@ == ORBIT_ORDER_DOMAIN@.take(i as int),
        decreases 32 - i,
    {
        frame.push(ORBIT_ORDER_DOMAIN[i]);
        proof {
            assert(ORBIT_ORDER_DOMAIN@.take(i as int + 1) =~= ORBIT_ORDER_DOMAIN@.take(i as int).push(
                ORBIT_ORDER_DOMAIN@[i as int],
            ));
        }
        i += 1;
    }
    proof {
        assert(ORBIT_ORDER_DOMAIN@.take(32) =~= ORBIT_ORDER_DOMAIN@);
    }
    push_le(&mut frame, seed, 8);
    frame.push(board[0]);
    frame.push(board[1]);
    frame.push(board[2]);
    proof {
        assert(frame@ =~= orbit_frame(seed, board));
    }
    sha256(frame.as_slice())
}

/// The orbits of a shard: those whose positions in the order of their
/// seeded keys (SHA-256 of the domain, the seed and the board; equal keys
/// by position) lie in `[orbit_offset, orbit_offset + maximum_flop_orbits)`,
/// in their given order; as many as that span covers of the orbits.
pub fn select_flop_orbits(orbits: &Vec<CanonicalFlopOrbit>, seed: u64, orbit_offset: usize, maximum_flop_orbits: usize) -> (selected: Vec<CanonicalFlopOrbit>)
    ensures
        selected@ == window_orbits(
            orbits@,
            seed,
            orbit_offset as int,
            orbit_offset + maximum_flop_orbits,
            orbits@.len() as int,
        ),
        selected@.len() == (if orbit_offset + maximum_flop_orbits < orbits@.len() {
            orbit_offset + maximum_flop_orbits
        } else {
            orbits@.len() as int
        }) - (if orbit_offset < orbits@.len() { orbit_offset as int } else { orbits@.len() as int }),
{
    let n = orbits.len();
    let mut keys: Vec<Vec<u8>> = Vec::new();
    let mut k: usize = 0;
    while k < n
        invariant
            n == orbits@.len(),
            k <= n,
            keys@.len() == k,
            forall|j: int| 0 <= j < k ==> #[trigger] keys@[j]@ == orbit_key(orbits@, seed, j),
        decreases n - k,
    {
        keys.push(orbit_order_key(seed, orbits[k].board));
        k += 1;
    }
    let mut selected: Vec<CanonicalFlopOrbit> = Vec::new();
    let mut i: usize = 0;
    while i < n
        invariant
            n == orbits@.len(),
            i <= n,
            keys@.len() == n,
            forall|j: int| 0 <= j < n ==> #[trigger] keys@[j]@ == orbit_key(orbits@, seed, j),
            selected@ == window_orbits(orbits@, seed, orbit_offset as int, orbit_offset + maximum_flop_orbits, i as int),
        decreases n - i,
    {
        let mut rank: usize = 0;
        let mut j: usize = 0;
        while j < n
            invariant
                n == orbits@.len(),
                i < n,
                j <= n,
                rank <= j,
                keys@.len() == n,
                forall|x: int| 0 <= x < n ==> #[trigger] keys@[x]@ == orbit_key(orbits@, seed, x),
                rank == rank_below(orbits@, seed, i as int, j as int),
            decreases n - j,
        {
            let c = compare_bytes(&keys[j], &keys[i]);
            proof {
                lemma_bytes_order(keys@[j as int]@, keys@[i as int]@, keys@[j as int]@);
            }
            if c == -1 || (c == 0 && j < i) {
                rank += 1;
            }
            j += 1;
        }
        let lo = orbit_offset as u128;
        let hi = orbit_offset as u128 + maximum_flop_orbits as u128;
        if lo <= rank as u128 && (rank as u128) < hi {
            selected.push(orbits[i]);
        }
        i += 1;
    }
    proof {
        law_shard_holds_its_span(orbits@, seed, orbit_offset as int, orbit_offset + maximum_flop_orbits);
    }
    selected
}

proof fn lemma_windows_split(orbits: Seq<CanonicalFlopOrbit>, seed: u64, a: int, b: int, c: int, n: int)
    requires
        a <= b <= c,
        0 <= n <= orbits.len(),
    ensures
        window_orbits(orbits, seed, a, c, n).to_multiset() =~= window_orbits(orbits, seed, a, b, n).to_multiset().add(
            window_orbits(orbits, seed, b, c, n).to_multiset(),
        ),
    decreases n,
{
    broadcast use vstd::seq_lib::group_to_multiset_ensures;
    if n > 0 {
        lemma_windows_split(orbits, seed, a, b, c, n - 1);
    }
}

/// Two consecutive shards, `[a, b)` and `[b, c)` of the seeded order,
/// together select exactly the orbits of the shard `[a, c)`.
pub proof fn law_consecutive_shards_join(orbits: Seq<CanonicalFlopOrbit>, seed: u64, a: int, b: int, c: int)
    requires
        a <= b <= c,
    ensures
        window_orbits(orbits, seed, a, c, orbits.len() as int).to_multiset() =~= window_orbits(
            orbits,
            seed,
            a,
            b,
            orbits.len() as int,
        ).to_multiset().add(window_orbits(orbits, seed, b, c, orbits.len() as int).to_multiset()),
{
    lemma_windows_split(orbits, seed, a, b, c, orbits.len() as int);
}

proof fn lemma_rank_bound(orbits: Seq<CanonicalFlopOrbit>, seed: u64, i: int, m: int)
    requires
        0 <= i,
        0 <= m,
    ensures
        0 <= rank_below(orbits, seed, i, m) <= (if i < m { m - 1 } else { m }),
    decreases m,
{
    if m > 0 {
        lemma_rank_bound(orbits, seed, i, m - 1);
        lemma_bytes_order(orbit_key(orbits, seed, i), orbit_key(orbits, seed, i), orbit_key(orbits, seed, i));
    }
}

proof fn lemma_full_window(orbits: Seq<CanonicalFlopOrbit>, seed: u64, n: int)
    requires
        0 <= n <= orbits.len(),
    ensures
        window_orbits(orbits, seed, 0, orbits.len() as int, n) =~= orbits.take(n),
    decreases n,
{
    if n > 0 {
        lemma_full_window(orbits, seed, n - 1);
        lemma_rank_bound(orbits, seed, n - 1, orbits.len() as int);
        assert(orbits.take(n) =~= orbits.take(n - 1).push(orbits[n - 1]));
    }
}

/// The shard that spans the whole seeded order selects every orbit, in the
/// given order.
pub proof fn law_full_shard_is_every_orbit(orbits: Seq<CanonicalFlopOrbit>, seed: u64)
    ensures
        window_orbits(orbits, seed, 0, orbits.len() as int, orbits.len() as int) == orbits,
{
    lemma_full_window(orbits, seed, orbits.len() as int);
    assert(orbits.take(orbits.len() as int) =~= orbits);
}

/// `seeded_before` is a strict total order on the positions of the orbits.
proof fn lemma_seeded_order(orbits: Seq<CanonicalFlopOrbit>, seed: u64, a: int, b: int, c: int)
    ensures
        !seeded_before(orbits, seed, a, a),
        seeded_before(orbits, seed, a, b) && seeded_before(orbits, seed, b, c) ==> seeded_before(orbits, seed, a, c),
        a != b ==> seeded_before(orbits, seed, a, b) || seeded_before(orbits, seed, b, a),
{
    let ka = orbit_key(orbits, seed, a);
    let kb = orbit_key(orbits, seed, b);
    let kc = orbit_key(orbits, seed, c);
    lemma_bytes_order(ka, kb, kc);
    lemma_bytes_order(ka, ka, ka);
    lemma_bytes_order(kb, ka, ka);
}

/// An orbit that comes before another has a lower rank among the first `m`
/// orbits, lower by one more once it is itself among them.
proof fn lemma_rank_step(orbits: Seq<CanonicalFlopOrbit>, seed: u64, i: int, k: int, m: int)
    requires
        0 <= m,
        seeded_before(orbits, seed, i, k),
    ensures
        rank_below(orbits, seed, i, m) + (if 0 <= i < m { 1int } else { 0int }) <= rank_below(orbits, seed, k, m),
    decreases m,
{
    if m > 0 {
        lemma_rank_step(orbits, seed, i, k, m - 1);
        lemma_seeded_order(orbits, seed, m - 1, i, k);
    }
}

/// Different orbits have different seeded positions.
proof fn lemma_ranks_differ(orbits: Seq<CanonicalFlopOrbit>, seed: u64, i: int, k: int)
    requires
        0 <= i < orbits.len(),
        0 <= k < orbits.len(),
        i != k,
    ensures
        seeded_rank(orbits, seed, i) != seeded_rank(orbits, seed, k),
{
    lemma_seeded_order(orbits, seed, i, k, k);
    if seeded_before(orbits, seed, i, k) {
        lemma_rank_step(orbits, seed, i, k, orbits.len() as int);
    } else {
        lemma_rank_step(orbits, seed, k, i, orbits.len() as int);
    }
}

/// The seeded positions of the orbits that a window selects.
spec fn window_ranks(orbits: Seq<CanonicalFlopOrbit>, seed: u64, lo: int, hi: int, n: int) -> Seq<int>
    decreases n,
{
    if n <= 0 {
        Seq::empty()
    } else {
        let rest = window_ranks(orbits, seed, lo, hi, n - 1);
        let r = seeded_rank(orbits, seed, n - 1);
        if lo <= r < hi { rest.push(r) } else { rest }
    }
}

proof fn lemma_window_ranks(orbits: Seq<CanonicalFlopOrbit>, seed: u64, lo: int, hi: int, m: int)
    requires
        0 <= m <= orbits.len(),
    ensures
        window_ranks(orbits, seed, lo, hi, m).len() == window_orbits(orbits, seed, lo, hi, m).len(),
        window_ranks(orbits, seed, lo, hi, m).no_duplicates(),
        forall|x: int|
            0 <= x < window_ranks(orbits, seed, lo, hi, m).len() ==> lo <= #[trigger] window_ranks(orbits, seed, lo, hi, m)[x]
                < hi,
        forall|x: int|
            #![trigger window_ranks(orbits, seed, lo, hi, m)[x]]
            0 <= x < window_ranks(orbits, seed, lo, hi, m).len() ==> exists|j: int|
                0 <= j < m && #[trigger] seeded_rank(orbits, seed, j) == window_ranks(orbits, seed, lo, hi, m)[x],
    decreases m,
{
    if m > 0 {
        lemma_window_ranks(orbits, seed, lo, hi, m - 1);
        let rest = window_ranks(orbits, seed, lo, hi, m - 1);
        let r = seeded_rank(orbits, seed, m - 1);
        let cur = window_ranks(orbits, seed, lo, hi, m);
        if lo <= r < hi {
            assert forall|x: int| 0 <= x < rest.len() implies rest[x] != r by {
                let j = choose|j: int| 0 <= j < m - 1 && #[trigger] seeded_rank(orbits, seed, j) == rest[x];
                lemma_ranks_differ(orbits, seed, j, m - 1);
            }
            assert forall|x: int| #![trigger cur[x]] 0 <= x < cur.len() implies exists|j: int|
                0 <= j < m && #[trigger] seeded_rank(orbits, seed, j) == cur[x] by {
                if x < rest.len() {
                    assert(cur[x] == rest[x]);
                    let j = choose|j: int| 0 <= j < m - 1 && #[trigger] seeded_rank(orbits, seed, j) == rest[x];
                    assert(seeded_rank(orbits, seed, j) == cur[x]);
                } else {
                    assert(seeded_rank(orbits, seed, m - 1) == cur[x]);
                }
            }
            assert forall|x: int| 0 <= x < cur.len() implies lo <= #[trigger] cur[x] < hi by {
                if x < rest.len() {
                    assert(cur[x] == rest[x]);
                }
            }
        } else {
            assert forall|x: int| #![trigger cur[x]] 0 <= x < cur.len() implies exists|j: int|
                0 <= j < m && #[trigger] seeded_rank(orbits, seed, j) == cur[x] by {
                let j = choose|j: int| 0 <= j < m - 1 && #[trigger] seeded_rank(orbits, seed, j) == rest[x];
                assert(seeded_rank(orbits, seed, j) == cur[x]);
            }
        }
    }
}

/// A window over `[lo, hi)` selects at most `hi - lo` orbits.
proof fn lemma_window_at_most(orbits: Seq<CanonicalFlopOrbit>, seed: u64, lo: int, hi: int)
    requires
        lo <= hi,
    ensures
        window_orbits(orbits, seed, lo, hi, orbits.len() as int).len() <= hi - lo,
{
    let n = orbits.len() as int;
    lemma_window_ranks(orbits, seed, lo, hi, n);
    let ranks = window_ranks(orbits, seed, lo, hi, n);
    ranks.unique_seq_to_set();
    vstd::set_lib::lemma_int_range(lo, hi);
    assert(ranks.to_set().subset_of(vstd::set_lib::set_int_range(lo, hi))) by {
        assert forall|r: int| ranks.to_set().contains(r) implies vstd::set_lib::set_int_range(lo, hi).contains(r) by {
            let x = choose|x: int| 0 <= x < ranks.len() && ranks[x] == r;
            assert(lo <= ranks[x] < hi);
        }
    }
    vstd::set_lib::lemma_len_subset(ranks.to_set(), vstd::set_lib::set_int_range(lo, hi));
}

/// Clipping a window to the orbit count selects the same orbits.
proof fn lemma_same_window(orbits: Seq<CanonicalFlopOrbit>, seed: u64, lo: int, hi: int, lo2: int, hi2: int, m: int)
    requires
        0 <= m <= orbits.len(),
        0 <= lo <= hi,
        lo2 == (if lo < orbits.len() { lo } else { orbits.len() as int }),
        hi2 == (if hi < orbits.len() { hi } else { orbits.len() as int }),
    ensures
        window_orbits(orbits, seed, lo, hi, m) == window_orbits(orbits, seed, lo2, hi2, m),
    decreases m,
{
    if m > 0 {
        lemma_same_window(orbits, seed, lo, hi, lo2, hi2, m - 1);
        lemma_rank_bound(orbits, seed, m - 1, orbits.len() as int);
    }
}

/// A shard selects as many orbits as its span covers of the seeded order:
/// of `n` orbits, the window `[lo, hi)` holds `min(hi, n) - min(lo, n)`.
pub proof fn law_shard_holds_its_span(orbits: Seq<CanonicalFlopOrbit>, seed: u64, lo: int, hi: int)
    requires
        0 <= lo <= hi,
    ensures
        window_orbits(orbits, seed, lo, hi, orbits.len() as int).len() == (if hi < orbits.len() { hi } else {
            orbits.len() as int
        }) - (if lo < orbits.len() { lo } else { orbits.len() as int }),
{
    broadcast use vstd::seq_lib::group_to_multiset_ensures;
    let n = orbits.len() as int;
    let l = if lo < n { lo } else { n };
    let h = if hi < n { hi } else { n };
    law_full_shard_is_every_orbit(orbits, seed);
    lemma_windows_split(orbits, seed, 0, l, n, n);
    lemma_windows_split(orbits, seed, l, h, n, n);
    lemma_window_at_most(orbits, seed, 0, l);
    lemma_window_at_most(orbits, seed, l, h);
    lemma_window_at_most(orbits, seed, h, n);
    assert(window_orbits(orbits, seed, 0, n, n).to_multiset().len() == n);
    lemma_same_window(orbits, seed, lo, hi, l, h, n);
}

/// The boards dealt to worker `w` of `workers`: positions `w`, `w +
/// workers`, `w + 2 * workers`, and so on below `count`.
pub open spec fn worker_positions(count: int, workers: int, w: int) -> Seq<int> {
    Seq::new(
        (if w < count { (count - w - 1) / workers + 1 } else { 0 }) as nat,
        |j: int| w + j * workers,
    )
}

proof fn lemma_below_quotient(j: int, a: int, b: int)
    requires
        0 <= j <= a / b,
        a >= 0,
        b > 0,
    ensures
        j * b <= a,
{
    vstd::arithmetic::div_mod::lemma_fundamental_div_mod(a, b);
    vstd::arithmetic::div_mod::lemma_mod_pos_bound(a, b);
    vstd::arithmetic::mul::lemma_mul_inequality(j, a / b, b);
    vstd::arithmetic::mul::lemma_mul_is_commutative(b, a / b);
}

/// Deal `count` boards round-robin to `workers` workers.
pub fn deal_orbits_to_workers(count: usize, workers: usize) -> (assignment: Vec<Vec<usize>>)
    requires
        workers > 0,
    ensures
        assignment@.len() == workers,
        forall|w: int|
            0 <= w < workers ==> (#[trigger] assignment@[w])@.map_values(|p: usize| p as int) == worker_positions(
                count as int,
                workers as int,
                w,
            ),
{
    let mut assignment: Vec<Vec<usize>> = Vec::new();
    let mut w: usize = 0;
    while w < workers
        invariant
            w <= workers,
            workers > 0,
            assignment@.len() == w,
            forall|x: int|
                0 <= x < w ==> (#[trigger] assignment@[x])@.map_values(|p: usize| p as int) == worker_positions(
                    count as int,
                    workers as int,
                    x,
                ),
        decreases workers - w,
    {
        let total: usize = if w < count { (count - w - 1) / workers + 1 } else { 0 };
        let mut mine: Vec<usize> = Vec::new();
        let mut j: usize = 0;
        while j < total
            invariant
                workers > 0,
                w < workers,
                j <= total,
                total as int == (if w < count { (count - w - 1) as int / workers as int + 1 } else { 0 }),
                mine@.len() == j,
                forall|t: int| 0 <= t < j ==> #[trigger] mine@[t] == w + t * workers,
            decreases total - j,
        {
            proof {
                lemma_below_quotient(j as int, (count - w - 1) as int, workers as int);
            }
            mine.push(w + j * workers);
            j += 1;
        }
        proof {
            assert(mine@.map_values(|q: usize| q as int) =~= worker_positions(count as int, workers as int, w as int));
        }
        assignment.push(mine);
        w += 1;
    }
    assignment
}

/// Dealing boards round-robin gives every board to exactly one worker:
/// board `p` is entry `p / workers` of worker `p % workers`, and appears
/// nowhere else.
pub proof fn law_every_board_has_one_worker(count: int, workers: int, p: int)
    requires
        workers > 0,
        0 <= p < count,
    ensures
        p / workers < worker_positions(count, workers, p % workers).len(),
        worker_positions(count, workers, p % workers)[p / workers] == p,
        forall|w: int, j: int|
            0 <= w < workers && 0 <= j < worker_positions(count, workers, w).len() && #[trigger] worker_positions(
                count,
                workers,
                w,
            )[j] == p ==> w == p % workers && j == p / workers,
{
    let q = p / workers;
    let r = p % workers;
    vstd::arithmetic::div_mod::lemma_fundamental_div_mod(p, workers);
    vstd::arithmetic::div_mod::lemma_mod_pos_bound(p, workers);
    vstd::arithmetic::mul::lemma_mul_is_commutative(workers, q);
    assert(r <= p) by {
        vstd::arithmetic::div_mod::lemma_div_pos_is_pos(p, workers);
        vstd::arithmetic::mul::lemma_mul_nonnegative(q, workers);
    }
    vstd::arithmetic::div_mod::lemma_div_is_ordered(p - r, count - r - 1, workers);
    vstd::arithmetic::div_mod::lemma_div_multiples_vanish(q, workers);
    assert(p - r == workers * q);
    assert forall|w: int, j: int|
        0 <= w < workers && 0 <= j < worker_positions(count, workers, w).len() && #[trigger] worker_positions(
            count,
            workers,
            w,
        )[j] == p implies w == p % workers && j == p / workers by {
        assert(p == j * workers + w);
        vstd::arithmetic::div_mod::lemma_fundamental_div_mod_converse(p, workers, j, w);
    }
}

/// The workers of a shard and the resolver threads each gets: no more
/// workers than boards, and an even share of the threads, at least one.
pub fn worker_plan(board_workers: usize, boards: usize, threads: usize) -> (plan: (usize, usize))
    requires
        board_workers > 0,
        boards > 0,
    ensures
        plan.0 == if board_workers < boards { board_workers } else { boards },
        plan.1 == if threads / plan.0 >= 1 { threads / plan.0 } else { 1 },
{
    let workers = if board_workers < boards { board_workers } else { boards };
    let share = threads / workers;
    (workers, if share >= 1 { share } else { 1 })
}

} // verus!
