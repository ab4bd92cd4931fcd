//! Suit-canonical flops. Two flops are equivalent when one is obtained from
//! the other by renaming suits; the canonical representative is the
//! lexicographically least sorted relabelling.
use vstd::prelude::*;

verus! {

/// A flop (or any three cards) as mathematical integers.
pub type Triple = (int, int, int);

/// All 24 permutations of the four suits, in lexicographic order.
pub const SUIT_PERMUTATIONS: [[u8; 4]; 24] = [
    [0, 1, 2, 3],
    [0, 1, 3, 2],
    [0, 2, 1, 3],
    [0, 2, 3, 1],
    [0, 3, 1, 2],
    [0, 3, 2, 1],
    [1, 0, 2, 3],
    [1, 0, 3, 2],
    [1, 2, 0, 3],
    [1, 2, 3, 0],
    [1, 3, 0, 2],
    [1, 3, 2, 0],
    [2, 0, 1, 3],
    [2, 0, 3, 1],
    [2, 1, 0, 3],
    [2, 1, 3, 0],
    [2, 3, 0, 1],
    [2, 3, 1, 0],
    [3, 0, 1, 2],
    [3, 0, 2, 1],
    [3, 1, 0, 2],
    [3, 1, 2, 0],
    [3, 2, 0, 1],
    [3, 2, 1, 0]
];

/// A three-card board as numbers.
pub open spec fn triple_of(board: [u8; 3]) -> Triple {
    (board[0] as int, board[1] as int, board[2] as int)
}

/// The card with the same rank whose suit is renamed by `perm`.
pub open spec fn relabel(card: int, perm: [u8; 4]) -> int {
    (card / 4) * 4 + perm[card % 4] as int
}

/// The three values in ascending order.
pub open spec fn sort3(t: Triple) -> Triple {
    let (a, b, c) = t;
    if a <= b {
        if b <= c {
            (a, b, c)
        } else if a <= c {
            (a, c, b)
        } else {
            (c, a, b)
        }
    } else {
        if a <= c {
            (b, a, c)
        } else if b <= c {
            (b, c, a)
        } else {
            (c, b, a)
        }
    }
}

/// Strict lexicographic order on triples.
pub open spec fn lex_lt(x: Triple, y: Triple) -> bool {
    x.0 < y.0 || (x.0 == y.0 && (x.1 < y.1 || (x.1 == y.1 && x.2 < y.2)))
}

/// The lexicographically smaller of two triples.
pub open spec fn lex_min(x: Triple, y: Triple) -> Triple {
    if lex_lt(y, x) {
        y
    } else {
        x
    }
}

/// The sorted flop after renaming suits by the `k`-th permutation.
pub open spec fn suit_candidate(board: Triple, k: int) -> Triple {
    let perm = SUIT_PERMUTATIONS[k];
    sort3((relabel(board.0, perm), relabel(board.1, perm), relabel(board.2, perm)))
}

/// Least candidate among the first `k` permutations (`k >= 1`).
pub open spec fn least_candidate(board: Triple, k: int) -> Triple
    decreases k,
{
    if k <= 1 {
        suit_candidate(board, 0)
    } else {
        lex_min(least_candidate(board, k - 1), suit_candidate(board, k - 1))
    }
}

/// The canonical representative of a flop's suit-renaming orbit.
#[verifier::opaque]
pub open spec fn canonical_flop(board: Triple) -> Triple {
    least_candidate(board, 24)
}

/// A raw flop: three distinct cards listed in ascending order.
pub open spec fn is_raw_flop(t: Triple) -> bool {
    0 <= t.0 < t.1 < t.2 < 52
}

/// Every raw flop whose canonical representative is `board`.
pub open spec fn flop_orbit(board: Triple) -> Set<Triple> {
    Set::new(|t: Triple| is_raw_flop(t) && canonical_flop(t) == board)
}

/// Raw flops enumerated before `cur` in lexicographic order.
pub open spec fn raw_flops_before(cur: Triple) -> Set<Triple> {
    Set::new(|t: Triple| is_raw_flop(t) && lex_lt(t, cur))
}

/// The raw flops before `cur` whose canonical representative is `board`.
pub open spec fn orbit_before(board: Triple, cur: Triple) -> Set<Triple> {
    Set::new(|t: Triple| is_raw_flop(t) && lex_lt(t, cur) && canonical_flop(t) == board)
}

fn sort_three(a: u8, b: u8, c: u8) -> (r: [u8; 3])
    ensures
        triple_of(r) == sort3((a as int, b as int, c as int)),
{
    if a <= b {
        if b <= c {
            [a, b, c]
        } else if a <= c {
            [a, c, b]
        } else {
            [c, a, b]
        }
    } else {
        if a <= c {
            [b, a, c]
        } else if b <= c {
            [b, c, a]
        } else {
            [c, b, a]
        }
    }
}

fn relabel_card(card: u8, perm: [u8; 4]) -> (r: u8)
    requires
        forall|j: int| 0 <= j < 4 ==> perm[j] < 4,
    ensures
        r as int == relabel(card as int, perm),
{
    (card / 4) * 4 + perm[(card % 4) as usize]
}

fn lex_less(x: [u8; 3], y: [u8; 3]) -> (b: bool)
    ensures
        b == lex_lt(triple_of(x), triple_of(y)),
{
    x[0] < y[0] || (x[0] == y[0] && (x[1] < y[1] || (x[1] == y[1] && x[2] < y[2])))
}

/// The canonical representative of `board` under renaming of suits: the
/// lexicographically least sorted flop over all 24 suit permutations.
pub fn canonical_flop_suits(board: [u8; 3]) -> (canonical: [u8; 3])
    ensures
        triple_of(canonical) == canonical_flop(triple_of(board)),
{
    let ghost b = triple_of(board);
    let perms = SUIT_PERMUTATIONS;
    assert(forall|k: int, j: int| 0 <= k < 24 && 0 <= j < 4 ==> perms[k][j] < 4);
    let first = perms[0];
    let mut best = sort_three(
        relabel_card(board[0], first),
        relabel_card(board[1], first),
        relabel_card(board[2], first),
    );
    let mut k: usize = 1;
    while k < 24
        invariant
            1 <= k <= 24,
            perms == SUIT_PERMUTATIONS,
            forall|k: int, j: int| 0 <= k < 24 && 0 <= j < 4 ==> perms[k][j] < 4,
            b == triple_of(board),
            triple_of(best) == least_candidate(b, k as int),
        decreases 24 - k,
    {
        let perm = perms[k];
        let candidate = sort_three(
            relabel_card(board[0], perm),
            relabel_card(board[1], perm),
            relabel_card(board[2], perm),
        );
        if lex_less(candidate, best) {
            best = candidate;
        }
        k += 1;
    }
    proof {
        reveal(canonical_flop);
    }
    best
}


/// A measure that decreases along the enumeration of raw flops.
pub open spec fn flop_measure(first: int, second: int, third: int) -> int {
    2704 * (52 - first) + 52 * (52 - second) + (52 - third)
}

/// One suit-renaming orbit of raw flops: its canonical representative and
/// the number of raw flops in it.
#[derive(Clone, Copy, Debug, PartialEq, Eq)]
pub struct CanonicalFlopOrbit {
    pub board: [u8; 3],
    pub orbit_size: usize,
}

/// The least of the first `k` candidates is one of them and below none of them.
pub proof fn lemma_least_candidate_bounds(board: Triple, k: int)
    requires
        1 <= k <= 24,
    ensures
        forall|j: int| 0 <= j < k ==> !lex_lt(suit_candidate(board, j), least_candidate(board, k)),
        exists|j: int| 0 <= j < k && least_candidate(board, k) == suit_candidate(board, j),
    decreases k,
{
    if k > 1 {
        lemma_least_candidate_bounds(board, k - 1);
        let prev = least_candidate(board, k - 1);
        let c = suit_candidate(board, k - 1);
        if lex_lt(c, prev) {
            assert(least_candidate(board, k) == c);
        } else {
            let j = choose|j: int| 0 <= j < k - 1 && prev == suit_candidate(board, j);
            assert(least_candidate(board, k) == suit_candidate(board, j));
        }
    } else {
        assert(least_candidate(board, 1) == suit_candidate(board, 0));
    }
}

/// A relabelled raw flop, sorted again, is a raw flop.
pub proof fn lemma_candidate_of_raw_is_raw(board: Triple, k: int)
    requires
        is_raw_flop(board),
        0 <= k < 24,
    ensures
        is_raw_flop(suit_candidate(board, k)),
{
    let perm = SUIT_PERMUTATIONS[k];
    assert(forall|j: int, i: int| 0 <= j < i < 4 ==> perm[j] != perm[i]);
    assert(forall|j: int| 0 <= j < 4 ==> perm[j] < 4);
    let (a, b, c) = board;
    let ra = relabel(a, perm);
    let rb = relabel(b, perm);
    let rc = relabel(c, perm);
    assert(0 <= ra < 52 && 0 <= rb < 52 && 0 <= rc < 52);
    assert(ra != rb && rb != rc && ra != rc);
}

/// The canonical representative of a raw flop is itself a raw flop: three
/// distinct cards in ascending order.
pub proof fn law_canonical_flop_is_raw(board: Triple)
    requires
        is_raw_flop(board),
    ensures
        is_raw_flop(canonical_flop(board)),
{
    law_canonical_flop_is_least_relabelling(board);
    let j = choose|j: int| 0 <= j < 24 && canonical_flop(board) == suit_candidate(board, j);
    lemma_candidate_of_raw_is_raw(board, j);
}

/// Find the position of `board` in a list of orbits sorted by board.
fn locate_orbit(orbits: &Vec<CanonicalFlopOrbit>, board: [u8; 3]) -> (r: (bool, usize))
    requires
        forall|i: int, j: int|
            0 <= i < j < orbits.len() ==> lex_lt(
                triple_of(#[trigger] orbits[i].board),
                triple_of(#[trigger] orbits[j].board),
            ),
    ensures
        r.1 <= orbits.len(),
        r.0 ==> r.1 < orbits.len() && orbits[r.1 as int].board == board,
        !r.0 ==> forall|i: int| 0 <= i < orbits.len() ==> triple_of(#[trigger] orbits[i].board) != triple_of(board),
        !r.0 ==> forall|i: int| 0 <= i < r.1 ==> lex_lt(triple_of(#[trigger] orbits[i].board), triple_of(board)),
        !r.0 ==> forall|i: int| r.1 <= i < orbits.len() ==> lex_lt(triple_of(board), triple_of(#[trigger] orbits[i].board)),
{
    let mut i: usize = 0;
    while i < orbits.len()
        invariant
            i <= orbits.len(),
            forall|a: int, b: int|
                0 <= a < b < orbits.len() ==> lex_lt(
                    triple_of(#[trigger] orbits[a].board),
                    triple_of(#[trigger] orbits[b].board),
                ),
            forall|j: int| 0 <= j < i ==> lex_lt(triple_of(#[trigger] orbits[j].board), triple_of(board)),
        decreases orbits.len() - i,
    {
        let current = orbits[i].board;
        if current[0] == board[0] && current[1] == board[1] && current[2] == board[2] {
            assert(current@ =~= board@);
            return (true, i);
        }
        if lex_less(board, current) {
            assert forall|j: int| i <= j < orbits.len() implies lex_lt(triple_of(board), triple_of(#[trigger] orbits[j].board)) by {
                if j > i {
                    assert(lex_lt(triple_of(orbits[i as int].board), triple_of(orbits[j].board)));
                }
            }
            return (false, i);
        }
        i += 1;
    }
    (false, i)
}

/// Every suit-renaming orbit of the 22,100 raw flops, with its canonical
/// representative and size, in ascending order of representative.
pub fn canonical_flop_orbits() -> (orbits: Vec<CanonicalFlopOrbit>)
    ensures
        forall|i: int, j: int|
            0 <= i < j < orbits.len() ==> lex_lt(
                triple_of(#[trigger] orbits[i].board),
                triple_of(#[trigger] orbits[j].board),
            ),
        forall|i: int|
            0 <= i < orbits.len() ==> {
                &&& flop_orbit(triple_of(#[trigger] orbits[i].board)).finite()
                &&& orbits[i].orbit_size == flop_orbit(triple_of(orbits[i].board)).len()
                &&& orbits[i].orbit_size > 0
            },
        forall|t: Triple|
            is_raw_flop(t) ==> exists|i: int|
                0 <= i < orbits.len() && triple_of(#[trigger] orbits[i].board) == canonical_flop(t),
        raw_flops().finite(),
        orbit_size_total(orbits@) == raw_flops().len(),
{
    let mut orbits: Vec<CanonicalFlopOrbit> = Vec::new();
    let mut first: u8 = 0;
    let mut second: u8 = 1;
    let mut third: u8 = 2;
    let ghost mut seen: int = 0;
    proof {
        assert(raw_flops_before((0, 1, 2)) =~= Set::empty());
    }
    while first < 50
        invariant
            first <= 50,
            first < 50 ==> is_raw_flop((first as int, second as int, third as int)),
            first == 50 ==> second == 51 && third == 52,
            raw_flops_before((first as int, second as int, third as int)).finite(),
            forall|i: int, j: int|
                0 <= i < j < orbits.len() ==> lex_lt(
                    triple_of(#[trigger] orbits[i].board),
                    triple_of(#[trigger] orbits[j].board),
                ),
            forall|i: int|
                0 <= i < orbits.len() ==> {
                    &&& orbit_before(triple_of(#[trigger] orbits[i].board), (first as int, second as int, third as int)).finite()
                    &&& orbits[i].orbit_size == orbit_before(triple_of(orbits[i].board), (first as int, second as int, third as int)).len()
                    &&& orbits[i].orbit_size > 0
                },
            forall|t: Triple|
                is_raw_flop(t) && lex_lt(t, (first as int, second as int, third as int)) ==> exists|i: int|
                    0 <= i < orbits.len() && triple_of(#[trigger] orbits[i].board) == canonical_flop(t),
            raw_flops_before((first as int, second as int, third as int)).len() == seen,
            orbit_size_total(orbits@) == seen,
            seen + flop_measure(first as int, second as int, third as int) <= 143310,
        decreases flop_measure(first as int, second as int, third as int),
    {
        let ghost cur: Triple = (first as int, second as int, third as int);
        let canonical = canonical_flop_suits([first, second, third]);
        let ghost c = canonical_flop(cur);
        let (found, position) = locate_orbit(&orbits, canonical);
        let ghost old_orbits = orbits@;
        if found {
            proof {
                // Orbit sizes never exceed the number of raw flops seen so far.
                assert(orbit_before(c, cur).subset_of(raw_flops_before(cur)));
                vstd::set_lib::lemma_len_subset(orbit_before(c, cur), raw_flops_before(cur));
            }
            let size = orbits[position].orbit_size + 1;
            proof {
                lemma_orbit_total_update(orbits@, position as int, CanonicalFlopOrbit { board: canonical, orbit_size: size });
            }
            orbits.set(position, CanonicalFlopOrbit { board: canonical, orbit_size: size });
        } else {
            proof {
                assert(orbit_before(c, cur) =~= Set::empty());
            }
            proof {
                lemma_orbit_total_insert(orbits@, position as int, CanonicalFlopOrbit { board: canonical, orbit_size: 1 });
            }
            orbits.insert(position, CanonicalFlopOrbit { board: canonical, orbit_size: 1 });
        }
        let ghost mid = orbits@;
        // Advance to the next raw flop in lexicographic order.
        if third < 51 {
            third = third + 1;
        } else if second < 50 {
            second = second + 1;
            third = second + 1;
        } else {
            first = first + 1;
            second = first + 1;
            third = first + 2;
        }
        proof {
            let next: Triple = (first as int, second as int, third as int);
            assert(raw_flops_before(next) =~= raw_flops_before(cur).insert(cur));
            seen = seen + 1;
            assert forall|b: Triple| b != c implies #[trigger] orbit_before(b, next) =~= orbit_before(b, cur) by {}
            assert(orbit_before(c, next) =~= orbit_before(c, cur).insert(cur));
            assert(!orbit_before(c, cur).contains(cur));
            assert forall|i: int| 0 <= i < orbits.len() implies {
                &&& orbit_before(triple_of(#[trigger] orbits[i].board), next).finite()
                &&& orbits[i].orbit_size == orbit_before(triple_of(orbits[i].board), next).len()
                &&& orbits[i].orbit_size > 0
            } by {
                let b = triple_of(orbits[i].board);
                assert(orbit_before(b, cur).subset_of(raw_flops_before(cur)));
                if b == c {
                } else {
                    if found {
                        assert(old_orbits[i] == orbits[i]);
                    } else {
                        if i < position {
                            assert(old_orbits[i] == orbits[i]);
                        } else {
                            assert(old_orbits[i - 1] == orbits[i]);
                        }
                    }
                }
            }
            assert forall|t: Triple| is_raw_flop(t) && lex_lt(t, next) implies exists|i: int|
                0 <= i < orbits.len() && triple_of(#[trigger] orbits[i].board) == canonical_flop(t) by {
                if t == cur {
                    assert(triple_of(orbits[position as int].board) == c);
                } else {
                    assert(lex_lt(t, cur));
                    let i = choose|i: int| 0 <= i < old_orbits.len() && triple_of(#[trigger] old_orbits[i].board) == canonical_flop(t);
                    if found {
                        assert(triple_of(orbits[i].board) == canonical_flop(t));
                    } else if i < position {
                        assert(triple_of(orbits[i].board) == canonical_flop(t));
                    } else {
                        assert(triple_of(orbits[i + 1].board) == canonical_flop(t));
                    }
                }
            }
        }
    }
    proof {
        let end: Triple = (50, 51, 52);
        assert forall|i: int| 0 <= i < orbits.len() implies #[trigger] flop_orbit(triple_of(orbits[i].board)) =~= orbit_before(triple_of(orbits[i].board), end) by {}
        assert(raw_flops() =~= raw_flops_before(end));
    }
    orbits
}


/// A renaming of the four suits: four distinct suits, in order.
pub open spec fn is_suit_permutation(a: int, b: int, c: int, d: int) -> bool {
    &&& 0 <= a < 4 && 0 <= b < 4 && 0 <= c < 4 && 0 <= d < 4
    &&& a != b && a != c && a != d && b != c && b != d && c != d
}

/// Entry `k` of the renaming table is the renaming `(a, b, c, d)`.
pub open spec fn is_table_perm(k: int, a: int, b: int, c: int, d: int) -> bool {
    &&& 0 <= k < 24
    &&& SUIT_PERMUTATIONS[k][0] == a
    &&& SUIT_PERMUTATIONS[k][1] == b
    &&& SUIT_PERMUTATIONS[k][2] == c
    &&& SUIT_PERMUTATIONS[k][3] == d
}

/// The table lists every renaming of the four suits.
pub proof fn law_suit_permutations_complete(a: int, b: int, c: int, d: int)
    requires
        is_suit_permutation(a, b, c, d),
    ensures
        exists|k: int| is_table_perm(k, a, b, c, d),
{
    if a == 0 && b == 1 && c == 2 && d == 3 {
        assert(is_table_perm(0, a, b, c, d));
    }
    if a == 0 && b == 1 && c == 3 && d == 2 {
        assert(is_table_perm(1, a, b, c, d));
    }
    if a == 0 && b == 2 && c == 1 && d == 3 {
        assert(is_table_perm(2, a, b, c, d));
    }
    if a == 0 && b == 2 && c == 3 && d == 1 {
        assert(is_table_perm(3, a, b, c, d));
    }
    if a == 0 && b == 3 && c == 1 && d == 2 {
        assert(is_table_perm(4, a, b, c, d));
    }
    if a == 0 && b == 3 && c == 2 && d == 1 {
        assert(is_table_perm(5, a, b, c, d));
    }
    if a == 1 && b == 0 && c == 2 && d == 3 {
        assert(is_table_perm(6, a, b, c, d));
    }
    if a == 1 && b == 0 && c == 3 && d == 2 {
        assert(is_table_perm(7, a, b, c, d));
    }
    if a == 1 && b == 2 && c == 0 && d == 3 {
        assert(is_table_perm(8, a, b, c, d));
    }
    if a == 1 && b == 2 && c == 3 && d == 0 {
        assert(is_table_perm(9, a, b, c, d));
    }
    if a == 1 && b == 3 && c == 0 && d == 2 {
        assert(is_table_perm(10, a, b, c, d));
    }
    if a == 1 && b == 3 && c == 2 && d == 0 {
        assert(is_table_perm(11, a, b, c, d));
    }
    if a == 2 && b == 0 && c == 1 && d == 3 {
        assert(is_table_perm(12, a, b, c, d));
    }
    if a == 2 && b == 0 && c == 3 && d == 1 {
        assert(is_table_perm(13, a, b, c, d));
    }
    if a == 2 && b == 1 && c == 0 && d == 3 {
        assert(is_table_perm(14, a, b, c, d));
    }
    if a == 2 && b == 1 && c == 3 && d == 0 {
        assert(is_table_perm(15, a, b, c, d));
    }
    if a == 2 && b == 3 && c == 0 && d == 1 {
        assert(is_table_perm(16, a, b, c, d));
    }
    if a == 2 && b == 3 && c == 1 && d == 0 {
        assert(is_table_perm(17, a, b, c, d));
    }
    if a == 3 && b == 0 && c == 1 && d == 2 {
        assert(is_table_perm(18, a, b, c, d));
    }
    if a == 3 && b == 0 && c == 2 && d == 1 {
        assert(is_table_perm(19, a, b, c, d));
    }
    if a == 3 && b == 1 && c == 0 && d == 2 {
        assert(is_table_perm(20, a, b, c, d));
    }
    if a == 3 && b == 1 && c == 2 && d == 0 {
        assert(is_table_perm(21, a, b, c, d));
    }
    if a == 3 && b == 2 && c == 0 && d == 1 {
        assert(is_table_perm(22, a, b, c, d));
    }
    if a == 3 && b == 2 && c == 1 && d == 0 {
        assert(is_table_perm(23, a, b, c, d));
    }
}

proof fn lemma_table_entries_are_permutations(k: int)
    requires
        0 <= k < 24,
    ensures
        is_suit_permutation(
            SUIT_PERMUTATIONS[k][0] as int,
            SUIT_PERMUTATIONS[k][1] as int,
            SUIT_PERMUTATIONS[k][2] as int,
            SUIT_PERMUTATIONS[k][3] as int,
        ),
{
}

pub(crate) proof fn lemma_relabel_parts(card: int, perm: [u8; 4])
    requires
        forall|j: int| 0 <= j < 4 ==> perm[j] < 4,
    ensures
        relabel(card, perm) / 4 == card / 4,
        relabel(card, perm) % 4 == perm[card % 4] as int,
{
    let q = card / 4;
    let r = perm[card % 4] as int;
    assert(0 <= card % 4 < 4);
    assert((q * 4 + r) / 4 == q && (q * 4 + r) % 4 == r) by (nonlinear_arith)
        requires 0 <= r < 4;
}

/// Renaming by `p` then by `q` is renaming by the table entry `m` = `q` after `p`.
proof fn lemma_relabel_compose(card: int, p: int, q: int, m: int)
    requires
        0 <= p < 24,
        0 <= q < 24,
        0 <= m < 24,
        forall|s: int| 0 <= s < 4 ==> SUIT_PERMUTATIONS[m][s] == SUIT_PERMUTATIONS[q][SUIT_PERMUTATIONS[p][s] as int],
    ensures
        relabel(relabel(card, SUIT_PERMUTATIONS[p]), SUIT_PERMUTATIONS[q]) == relabel(card, SUIT_PERMUTATIONS[m]),
{
    lemma_table_entries_are_permutations(p);
    lemma_relabel_parts(card, SUIT_PERMUTATIONS[p]);
    assert(0 <= card % 4 < 4);
}

/// Sorting ignores the order in which the three values are given.
proof fn lemma_sort3_rearranged(x: int, y: int, z: int)
    ensures
        sort3((x, y, z)) == sort3((x, z, y)),
        sort3((x, y, z)) == sort3((y, x, z)),
        sort3((x, y, z)) == sort3((y, z, x)),
        sort3((x, y, z)) == sort3((z, x, y)),
        sort3((x, y, z)) == sort3((z, y, x)),
{
}

/// The three cards with their suits renamed by `perm`.
pub open spec fn relabel_triple(t: Triple, perm: [u8; 4]) -> Triple {
    (relabel(t.0, perm), relabel(t.1, perm), relabel(t.2, perm))
}

proof fn lemma_candidate_of_candidate(board: Triple, p: int, q: int, m: int)
    requires
        0 <= p < 24,
        0 <= q < 24,
        0 <= m < 24,
        forall|s: int| 0 <= s < 4 ==> SUIT_PERMUTATIONS[m][s] == SUIT_PERMUTATIONS[q][SUIT_PERMUTATIONS[p][s] as int],
    ensures
        suit_candidate(suit_candidate(board, p), q) == suit_candidate(board, m),
{
    let (a, b, c) = board;
    let pp = SUIT_PERMUTATIONS[p];
    let qq = SUIT_PERMUTATIONS[q];
    lemma_relabel_compose(a, p, q, m);
    lemma_relabel_compose(b, p, q, m);
    lemma_relabel_compose(c, p, q, m);
    let ra = relabel(a, pp);
    let rb = relabel(b, pp);
    let rc = relabel(c, pp);
    lemma_sort3_rearranged(relabel(ra, qq), relabel(rb, qq), relabel(rc, qq));
    assert(relabel_triple(sort3((ra, rb, rc)), qq) == relabel_triple((ra, rb, rc), qq)
        || relabel_triple(sort3((ra, rb, rc)), qq) == relabel_triple((ra, rc, rb), qq)
        || relabel_triple(sort3((ra, rb, rc)), qq) == relabel_triple((rb, ra, rc), qq)
        || relabel_triple(sort3((ra, rb, rc)), qq) == relabel_triple((rb, rc, ra), qq)
        || relabel_triple(sort3((ra, rb, rc)), qq) == relabel_triple((rc, ra, rb), qq)
        || relabel_triple(sort3((ra, rb, rc)), qq) == relabel_triple((rc, rb, ra), qq));
}

/// The position at which `perm` maps to suit `s`.
spec fn inverse_at(perm: [u8; 4], s: int) -> int {
    if perm[0] == s {
        0
    } else if perm[1] == s {
        1
    } else if perm[2] == s {
        2
    } else {
        3
    }
}

/// For table entries `p` and `j` there is an entry `q` with `q` after `p` equal to `j`.
proof fn lemma_table_quotient(p: int, j: int) -> (q: int)
    requires
        0 <= p < 24,
        0 <= j < 24,
    ensures
        0 <= q < 24,
        forall|s: int| 0 <= s < 4 ==> SUIT_PERMUTATIONS[j][s] == SUIT_PERMUTATIONS[q][SUIT_PERMUTATIONS[p][s] as int],
{
    let pp = SUIT_PERMUTATIONS[p];
    let jj = SUIT_PERMUTATIONS[j];
    lemma_table_entries_are_permutations(p);
    lemma_table_entries_are_permutations(j);
    assert forall|s: int| 0 <= s < 4 implies pp[#[trigger] inverse_at(pp, s)] == s && 0 <= inverse_at(pp, s) < 4 by {}
    let a = jj[inverse_at(pp, 0)] as int;
    let b = jj[inverse_at(pp, 1)] as int;
    let c = jj[inverse_at(pp, 2)] as int;
    let d = jj[inverse_at(pp, 3)] as int;
    assert(is_suit_permutation(a, b, c, d));
    law_suit_permutations_complete(a, b, c, d);
    let q = choose|k: int| is_table_perm(k, a, b, c, d);
    assert forall|s: int| 0 <= s < 4 implies SUIT_PERMUTATIONS[j][s] == SUIT_PERMUTATIONS[q][SUIT_PERMUTATIONS[p][s] as int] by {
        let t = pp[s] as int;
        assert(inverse_at(pp, t) == s);
    }
    q
}

proof fn lemma_table_compose(p: int, q: int) -> (m: int)
    requires
        0 <= p < 24,
        0 <= q < 24,
    ensures
        0 <= m < 24,
        forall|s: int| 0 <= s < 4 ==> SUIT_PERMUTATIONS[m][s] == SUIT_PERMUTATIONS[q][SUIT_PERMUTATIONS[p][s] as int],
{
    let pp = SUIT_PERMUTATIONS[p];
    let qq = SUIT_PERMUTATIONS[q];
    lemma_table_entries_are_permutations(p);
    lemma_table_entries_are_permutations(q);
    let a = qq[pp[0] as int] as int;
    let b = qq[pp[1] as int] as int;
    let c = qq[pp[2] as int] as int;
    let d = qq[pp[3] as int] as int;
    law_suit_permutations_complete(a, b, c, d);
    choose|k: int| is_table_perm(k, a, b, c, d)
}

/// The canonical flop is the least of the 24 suit relabellings, and is one of them.
pub proof fn law_canonical_flop_is_least_relabelling(board: Triple)
    ensures
        forall|k: int| 0 <= k < 24 ==> !lex_lt(suit_candidate(board, k), canonical_flop(board)),
        exists|k: int| 0 <= k < 24 && canonical_flop(board) == suit_candidate(board, k),
{
    reveal(canonical_flop);
    lemma_least_candidate_bounds(board, 24);
}

proof fn lemma_lex_antisymmetric(x: Triple, y: Triple)
    requires
        !lex_lt(x, y),
        !lex_lt(y, x),
    ensures
        x == y,
{
}

/// `canonical(board) <= canonical(renamed)` for a renaming by entry `p`.
proof fn lemma_canonical_le_renamed(board: Triple, p: int)
    requires
        0 <= p < 24,
    ensures
        !lex_lt(canonical_flop(suit_candidate(board, p)), canonical_flop(board)),
{
    let renamed = suit_candidate(board, p);
    law_canonical_flop_is_least_relabelling(board);
    law_canonical_flop_is_least_relabelling(renamed);
    let q = choose|k: int| 0 <= k < 24 && canonical_flop(renamed) == suit_candidate(renamed, k);
    let m = lemma_table_compose(p, q);
    lemma_candidate_of_candidate(board, p, q, m);
}

/// `canonical(renamed) <= canonical(board)` for a renaming by entry `p`.
proof fn lemma_renamed_le_canonical(board: Triple, p: int)
    requires
        0 <= p < 24,
    ensures
        !lex_lt(canonical_flop(board), canonical_flop(suit_candidate(board, p))),
{
    let renamed = suit_candidate(board, p);
    law_canonical_flop_is_least_relabelling(board);
    law_canonical_flop_is_least_relabelling(renamed);
    let j = choose|k: int| 0 <= k < 24 && canonical_flop(board) == suit_candidate(board, k);
    let q = lemma_table_quotient(p, j);
    lemma_candidate_of_candidate(board, p, q, j);
}

/// Renaming the suits of a flop does not change its canonical representative;
/// in particular the representative is its own representative.
pub proof fn law_canonical_flop_is_suit_invariant(board: Triple, p: int)
    requires
        0 <= p < 24,
    ensures
        canonical_flop(suit_candidate(board, p)) == canonical_flop(board),
        canonical_flop(canonical_flop(board)) == canonical_flop(board),
{
    lemma_canonical_le_renamed(board, p);
    lemma_renamed_le_canonical(board, p);
    lemma_lex_antisymmetric(canonical_flop(suit_candidate(board, p)), canonical_flop(board));
    law_canonical_flop_is_least_relabelling(board);
    let j = choose|k: int| 0 <= k < 24 && canonical_flop(board) == suit_candidate(board, k);
    lemma_canonical_le_renamed(board, j);
    lemma_renamed_le_canonical(board, j);
    lemma_lex_antisymmetric(canonical_flop(suit_candidate(board, j)), canonical_flop(board));
}

/// Every board whose orbit holds a raw flop is canonical: it is its own
/// representative, and itself a raw flop.
pub proof fn law_orbit_boards_are_canonical(board: Triple, t: Triple)
    requires
        flop_orbit(board).contains(t),
    ensures
        canonical_flop(board) == board,
        is_raw_flop(board),
{
    law_canonical_flop_is_suit_invariant(t, 0);
    law_canonical_flop_is_raw(t);
}

/// Total of the orbit sizes of a list of orbits.
pub open spec fn orbit_size_total(orbits: Seq<CanonicalFlopOrbit>) -> int
    decreases orbits.len(),
{
    if orbits.len() == 0 {
        0
    } else {
        orbit_size_total(orbits.drop_last()) + orbits.last().orbit_size
    }
}

proof fn lemma_orbit_total_update(s: Seq<CanonicalFlopOrbit>, i: int, x: CanonicalFlopOrbit)
    requires
        0 <= i < s.len(),
    ensures
        orbit_size_total(s.update(i, x)) == orbit_size_total(s) - s[i].orbit_size + x.orbit_size,
    decreases s.len(),
{
    if i < s.len() - 1 {
        lemma_orbit_total_update(s.drop_last(), i, x);
        assert(s.update(i, x).drop_last() =~= s.drop_last().update(i, x));
    } else {
        assert(s.update(i, x).drop_last() =~= s.drop_last());
    }
}

proof fn lemma_orbit_total_insert(s: Seq<CanonicalFlopOrbit>, i: int, x: CanonicalFlopOrbit)
    requires
        0 <= i <= s.len(),
    ensures
        orbit_size_total(s.insert(i, x)) == orbit_size_total(s) + x.orbit_size,
    decreases s.len(),
{
    if i < s.len() {
        lemma_orbit_total_insert(s.drop_last(), i, x);
        assert(s.insert(i, x).drop_last() =~= s.drop_last().insert(i, x));
    } else {
        assert(s.insert(i, x).drop_last() =~= s);
    }
}

/// A raw flop that shares no card with `private`.
pub open spec fn flop_avoids(t: Triple, private: Seq<u8>) -> bool {
    !private.contains(t.0 as u8) && !private.contains(t.1 as u8) && !private.contains(t.2 as u8)
}

/// Every raw flop.
pub open spec fn raw_flops() -> Set<Triple> {
    Set::new(|t: Triple| is_raw_flop(t))
}

/// The raw flops that share no card with `private`.
pub open spec fn compatible_flops(private: Seq<u8>) -> Set<Triple> {
    Set::new(|t: Triple| is_raw_flop(t) && flop_avoids(t, private))
}

/// The compatible raw flops before `cur` in enumeration order.
pub open spec fn compatible_flops_before(private: Seq<u8>, cur: Triple) -> Set<Triple> {
    Set::new(|t: Triple| is_raw_flop(t) && lex_lt(t, cur) && flop_avoids(t, private))
}

/// How many public flops a uniform proposal draws from, and how many of them
/// are compatible with the known private cards: the ratio of the two is the
/// chance correction of a flop drawn without regard to those cards.
pub fn public_flop_proposals(private: &[u8]) -> (r: (u64, u64))
    ensures
        raw_flops().finite(),
        compatible_flops(private@).finite(),
        r.0 == raw_flops().len(),
        r.1 == compatible_flops(private@).len(),
{
    let mut proposed: u64 = 0;
    let mut compatible: u64 = 0;
    let mut first: u8 = 0;
    let mut second: u8 = 1;
    let mut third: u8 = 2;
    proof {
        assert(raw_flops_before((0, 1, 2)) =~= Set::empty());
        assert(compatible_flops_before(private@, (0, 1, 2)) =~= Set::empty());
    }
    while first < 50
        invariant
            first <= 50,
            first < 50 ==> is_raw_flop((first as int, second as int, third as int)),
            first == 50 ==> second == 51 && third == 52,
            raw_flops_before((first as int, second as int, third as int)).finite(),
            compatible_flops_before(private@, (first as int, second as int, third as int)).finite(),
            raw_flops_before((first as int, second as int, third as int)).len() == proposed,
            compatible_flops_before(private@, (first as int, second as int, third as int)).len() == compatible,
            compatible <= proposed,
            proposed + flop_measure(first as int, second as int, third as int) <= 143310,
        decreases flop_measure(first as int, second as int, third as int),
    {
        let ghost cur: Triple = (first as int, second as int, third as int);
        let avoids = !crate::deals::slice_contains(private, first) && !crate::deals::slice_contains(private, second)
            && !crate::deals::slice_contains(private, third);
        proposed = proposed + 1;
        if avoids {
            compatible = compatible + 1;
        }
        if third < 51 {
            third = third + 1;
        } else if second < 50 {
            second = second + 1;
            third = second + 1;
        } else {
            first = first + 1;
            second = first + 1;
            third = first + 2;
        }
        proof {
            let next: Triple = (first as int, second as int, third as int);
            assert(raw_flops_before(next) =~= raw_flops_before(cur).insert(cur));
            if avoids {
                assert(compatible_flops_before(private@, next) =~= compatible_flops_before(private@, cur).insert(cur));
            } else {
                assert(compatible_flops_before(private@, next) =~= compatible_flops_before(private@, cur));
            }
        }
    }
    proof {
        let end: Triple = (50, 51, 52);
        assert(raw_flops() =~= raw_flops_before(end));
        assert(compatible_flops(private@) =~= compatible_flops_before(private@, end));
    }
    (proposed, compatible)
}

} // verus!
