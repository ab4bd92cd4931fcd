//! The nested empirical chance tree of the causal certificate: sampled
//! flops, turns under each flop, rivers under each turn, and hidden hands
//! under each runout, all conditional on the responder's private hand.
use vstd::prelude::*;
use crate::deals::{Deal, deal_cards, sample_without_replacement, shuffled_prefix, lemma_shuffled_prefix_len, free_below,
    as_cards, lemma_free_below_count, lemma_free_below, free_cards, law_sample_without_replacement_keeps_cards};

verus! {

/// Draws used under one river branch: the river card, then two per hidden hand.
pub open spec fn river_draws(samples: int) -> int {
    1 + 2 * samples
}

/// Draws used under one turn branch.
pub open spec fn turn_draws(branches: int, samples: int) -> int {
    1 + branches * river_draws(samples)
}

/// Draws used under one flop branch.
pub open spec fn flop_draws(branches: int, samples: int) -> int {
    3 + branches * turn_draws(branches, samples)
}

/// Draws used by the whole tree.
pub open spec fn causal_draws(branches: int, samples: int) -> int {
    branches * flop_draws(branches, samples)
}

/// Draw `count` cards from `deck` with the draws from `start`: the drawn
/// cards and the rest of the deck.
pub open spec fn split_at(deck: Seq<u8>, draws: Seq<usize>, start: int, count: int) -> (Seq<u8>, Seq<u8>) {
    let s = shuffled_prefix(deck, draws.subrange(start, start + count), count);
    (s.take(count), s.skip(count))
}

/// The deal of one scenario: the responder keeps `holes`, the opponent gets
/// `opponent`, and the board is the flop, turn and river.
pub open spec fn scenario(holes: [u8; 2], responder: int, flop: Seq<u8>, turn: u8, river: u8, opponent: Seq<u8>) -> Deal {
    Deal {
        holes: if responder == 0 {
            [holes, [opponent[0], opponent[1]]]
        } else {
            [[opponent[0], opponent[1]], holes]
        },
        board: [flop[0], flop[1], flop[2], turn, river],
    }
}

/// The first `n` hidden-hand scenarios of one runout.
pub open spec fn hidden_block(
    holes: [u8; 2],
    responder: int,
    flop: Seq<u8>,
    turn: u8,
    river: u8,
    deck: Seq<u8>,
    draws: Seq<usize>,
    start: int,
    n: int,
) -> Seq<Deal>
    decreases n,
{
    if n <= 0 {
        Seq::empty()
    } else {
        hidden_block(holes, responder, flop, turn, river, deck, draws, start, n - 1).push(
            scenario(holes, responder, flop, turn, river, split_at(deck, draws, start + 2 * (n - 1), 2).0),
        )
    }
}

/// The scenarios of the first `n` river branches under one turn.
pub open spec fn river_block(
    holes: [u8; 2],
    responder: int,
    flop: Seq<u8>,
    turn: u8,
    deck: Seq<u8>,
    samples: int,
    draws: Seq<usize>,
    start: int,
    n: int,
) -> Seq<Deal>
    decreases n,
{
    if n <= 0 {
        Seq::empty()
    } else {
        let at = start + (n - 1) * river_draws(samples);
        let (river, rest) = split_at(deck, draws, at, 1);
        river_block(holes, responder, flop, turn, deck, samples, draws, start, n - 1) + hidden_block(
            holes,
            responder,
            flop,
            turn,
            river[0],
            rest,
            draws,
            at + 1,
            samples,
        )
    }
}

/// The scenarios of the first `n` turn branches under one flop.
pub open spec fn turn_block(
    holes: [u8; 2],
    responder: int,
    flop: Seq<u8>,
    deck: Seq<u8>,
    branches: int,
    samples: int,
    draws: Seq<usize>,
    start: int,
    n: int,
) -> Seq<Deal>
    decreases n,
{
    if n <= 0 {
        Seq::empty()
    } else {
        let at = start + (n - 1) * turn_draws(branches, samples);
        let (turn, rest) = split_at(deck, draws, at, 1);
        turn_block(holes, responder, flop, deck, branches, samples, draws, start, n - 1) + river_block(
            holes,
            responder,
            flop,
            turn[0],
            rest,
            samples,
            draws,
            at + 1,
            branches,
        )
    }
}

/// The scenarios of the first `n` flop branches.
pub open spec fn flop_block(
    holes: [u8; 2],
    responder: int,
    deck: Seq<u8>,
    branches: int,
    samples: int,
    draws: Seq<usize>,
    n: int,
) -> Seq<Deal>
    decreases n,
{
    if n <= 0 {
        Seq::empty()
    } else {
        let at = (n - 1) * flop_draws(branches, samples);
        let (flop, rest) = split_at(deck, draws, at, 3);
        flop_block(holes, responder, deck, branches, samples, draws, n - 1) + turn_block(
            holes,
            responder,
            flop,
            rest,
            branches,
            samples,
            draws,
            at + 3,
            branches,
        )
    }
}

/// The whole tree, drawn from the cards the responder does not hold.
pub open spec fn causal_scenario_tree(holes: [u8; 2], responder: int, branches: int, samples: int, draws: Seq<usize>) -> Seq<Deal> {
    flop_block(holes, responder, as_cards(free_below(holes@, 52)), branches, samples, draws, branches)
}

/// Scenario `j` of a runout's hidden block is the runout with the hidden
/// hand drawn by the two draws at `start + 2j`.
proof fn lemma_hidden_block_entry(
    holes: [u8; 2],
    responder: int,
    flop: Seq<u8>,
    turn: u8,
    river: u8,
    deck: Seq<u8>,
    draws: Seq<usize>,
    start: int,
    n: int,
    j: int,
)
    requires
        0 <= j < n,
    ensures
        hidden_block(holes, responder, flop, turn, river, deck, draws, start, n).len() == n,
        hidden_block(holes, responder, flop, turn, river, deck, draws, start, n)[j] == scenario(
            holes,
            responder,
            flop,
            turn,
            river,
            shuffled_prefix(deck, draws.subrange(start + 2 * j, start + 2 * j + 2), 2).take(2),
        ),
    decreases n,
{
    if n - 1 > j {
        lemma_hidden_block_entry(holes, responder, flop, turn, river, deck, draws, start, n - 1, j);
    } else if n > 1 {
        lemma_hidden_block_entry(holes, responder, flop, turn, river, deck, draws, start, n - 1, 0);
    }
    if n == 1 {
        assert(hidden_block(holes, responder, flop, turn, river, deck, draws, start, 0).len() == 0);
    }
}

/// Each hidden hand under a runout has draws of its own: hand `j` is drawn
/// by the two draws at `start + 2j` of the runout's block, so two draw
/// lists that agree at those two positions give scenario `j` the same
/// deal, whatever they hold at the other hands' positions.
pub proof fn law_hidden_hands_use_their_own_draws(
    holes: [u8; 2],
    responder: int,
    flop: Seq<u8>,
    turn: u8,
    river: u8,
    deck: Seq<u8>,
    draws: Seq<usize>,
    other: Seq<usize>,
    start: int,
    n: int,
    j: int,
)
    requires
        0 <= start,
        0 <= j < n,
        start + 2 * n <= draws.len(),
        start + 2 * n <= other.len(),
        draws[start + 2 * j] == other[start + 2 * j],
        draws[start + 2 * j + 1] == other[start + 2 * j + 1],
    ensures
        hidden_block(holes, responder, flop, turn, river, deck, draws, start, n).len() == n,
        hidden_block(holes, responder, flop, turn, river, deck, draws, start, n)[j] == hidden_block(
            holes,
            responder,
            flop,
            turn,
            river,
            deck,
            other,
            start,
            n,
        )[j],
{
    lemma_hidden_block_entry(holes, responder, flop, turn, river, deck, draws, start, n, j);
    lemma_hidden_block_entry(holes, responder, flop, turn, river, deck, other, start, n, j);
    assert(draws.subrange(start + 2 * j, start + 2 * j + 2) =~= other.subrange(start + 2 * j, start + 2 * j + 2));
}

fn take_draws(draws: &[usize], start: usize, count: usize) -> (v: Vec<usize>)
    requires
        start + count <= draws@.len(),
    ensures
        v@ == draws@.subrange(start as int, start + count),
{
    let mut v: Vec<usize> = Vec::new();
    let total = draws.len();
    let mut i: usize = 0;
    while i < count
        invariant
            i <= count,
            total == draws@.len(),
            start + count <= draws@.len(),
            v@ == draws@.subrange(start as int, start + i),
        decreases count - i,
    {
        v.push(draws[start + i]);
        proof {
            assert(draws@.subrange(start as int, start + i + 1) =~= draws@.subrange(start as int, start + i).push(draws@[start + i]));
        }
        i += 1;
    }
    v
}

proof fn lemma_split_lengths(deck: Seq<u8>, draws: Seq<usize>, start: int, count: int)
    requires
        0 <= count <= deck.len(),
    ensures
        split_at(deck, draws, start, count).0.len() == count,
        split_at(deck, draws, start, count).1.len() == deck.len() - count,
{
    lemma_shuffled_prefix_len(deck, draws.subrange(start, start + count), count);
}

proof fn lemma_block_fits(k: int, n: int, len: int)
    requires
        0 <= k < n,
        len >= 0,
    ensures
        (k + 1) * len == k * len + len,
        (k + 1) * len <= n * len,
        0 <= k * len,
{
    assert((k + 1) * len == k * len + len) by (nonlinear_arith);
    assert((k + 1) * len <= n * len) by (nonlinear_arith)
        requires k + 1 <= n, len >= 0;
    assert(0 <= k * len) by (nonlinear_arith)
        requires k >= 0, len >= 0;
}

fn deal_of(holes: [u8; 2], responder: usize, flop: &Vec<u8>, turn: u8, river: u8, opponent: &Vec<u8>) -> (d: Deal)
    requires
        responder < 2,
        flop@.len() == 3,
        opponent@.len() == 2,
    ensures
        d == scenario(holes, responder as int, flop@, turn, river, opponent@),
{
    let other = [opponent[0], opponent[1]];
    let d = if responder == 0 {
        Deal { holes: [holes, other], board: [flop[0], flop[1], flop[2], turn, river] }
    } else {
        Deal { holes: [other, holes], board: [flop[0], flop[1], flop[2], turn, river] }
    };
    proof {
        let s = scenario(holes, responder as int, flop@, turn, river, opponent@);
        assert(d.board@ =~= s.board@);
        assert(d.holes@ =~= s.holes@);
        assert(d.holes[1 - responder]@ =~= s.holes[1 - responder]@);
    }
    d
}

fn push_hidden(
    scenarios: &mut Vec<Deal>,
    holes: [u8; 2],
    responder: usize,
    flop: &Vec<u8>,
    turn: u8,
    river: u8,
    deck: &Vec<u8>,
    draws: &[usize],
    start: usize,
    samples: u32,
)
    requires
        responder < 2,
        flop@.len() == 3,
        deck@.len() >= 2,
        start + 2 * samples <= draws@.len(),
    ensures
        final(scenarios)@ == old(scenarios)@ + hidden_block(holes, responder as int, flop@, turn, river, deck@, draws@, start as int, samples as int),
{
    let ghost before = scenarios@;
    let total = draws.len();
    let mut o: u32 = 0;
    let mut at: usize = start;
    while o < samples
        invariant
            o <= samples,
            total == draws@.len(),
            responder < 2,
            flop@.len() == 3,
            deck@.len() >= 2,
            start + 2 * samples <= draws@.len(),
            at == start + 2 * o,
            scenarios@ == before + hidden_block(holes, responder as int, flop@, turn, river, deck@, draws@, start as int, o as int),
        decreases samples - o,
    {
        let d = take_draws(draws, at, 2);
        let (opponent, _) = sample_without_replacement(deck.as_slice(), 2, d.as_slice());
        proof {
            lemma_split_lengths(deck@, draws@, at as int, 2);
        }
        let deal = deal_of(holes, responder, flop, turn, river, &opponent);
        scenarios.push(deal);
        proof {
            assert(scenarios@ =~= before + hidden_block(holes, responder as int, flop@, turn, river, deck@, draws@, start as int, o as int + 1));
        }
        o += 1;
        at += 2;
    }
}

fn push_rivers(
    scenarios: &mut Vec<Deal>,
    holes: [u8; 2],
    responder: usize,
    flop: &Vec<u8>,
    turn: u8,
    deck: &Vec<u8>,
    branches: u32,
    samples: u32,
    draws: &[usize],
    start: usize,
)
    requires
        responder < 2,
        flop@.len() == 3,
        deck@.len() >= 3,
        start + branches * river_draws(samples as int) <= draws@.len(),
    ensures
        final(scenarios)@ == old(scenarios)@ + river_block(holes, responder as int, flop@, turn, deck@, samples as int, draws@, start as int, branches as int),
{
    let ghost before = scenarios@;
    let ghost width = river_draws(samples as int);
    let total = draws.len();
    let mut r: u32 = 0;
    let mut at: usize = start;
    while r < branches
        invariant
            r <= branches,
            total == draws@.len(),
            responder < 2,
            flop@.len() == 3,
            deck@.len() >= 3,
            width == river_draws(samples as int),
            start + branches * width <= draws@.len(),
            at == start + r * width,
            scenarios@ == before + river_block(holes, responder as int, flop@, turn, deck@, samples as int, draws@, start as int, r as int),
        decreases branches - r,
    {
        proof {
            lemma_block_fits(r as int, branches as int, width);
            lemma_block_fits(0, branches as int, width);
        }
        let d = take_draws(draws, at, 1);
        let (river, rest) = sample_without_replacement(deck.as_slice(), 1, d.as_slice());
        proof {
            lemma_split_lengths(deck@, draws@, at as int, 1);
        }
        let ghost mid = scenarios@;
        push_hidden(scenarios, holes, responder, flop, turn, river[0], &rest, draws, at + 1, samples);
        proof {
            assert(scenarios@ =~= before + river_block(holes, responder as int, flop@, turn, deck@, samples as int, draws@, start as int, r as int + 1));
        }
        r += 1;
        at = at + 1 + 2 * (samples as usize);
    }
}

fn push_turns(
    scenarios: &mut Vec<Deal>,
    holes: [u8; 2],
    responder: usize,
    flop: &Vec<u8>,
    deck: &Vec<u8>,
    branches: u32,
    samples: u32,
    draws: &[usize],
    start: usize,
)
    requires
        responder < 2,
        flop@.len() == 3,
        deck@.len() >= 4,
        start + branches * turn_draws(branches as int, samples as int) <= draws@.len(),
    ensures
        final(scenarios)@ == old(scenarios)@ + turn_block(holes, responder as int, flop@, deck@, branches as int, samples as int, draws@, start as int, branches as int),
{
    let ghost before = scenarios@;
    let ghost width = turn_draws(branches as int, samples as int);
    let total = draws.len();
    let mut t: u32 = 0;
    let mut at: usize = start;
    while t < branches
        invariant
            t <= branches,
            total == draws@.len(),
            responder < 2,
            flop@.len() == 3,
            deck@.len() >= 4,
            width == turn_draws(branches as int, samples as int),
            start + branches * width <= draws@.len(),
            at == start + t * width,
            scenarios@ == before + turn_block(holes, responder as int, flop@, deck@, branches as int, samples as int, draws@, start as int, t as int),
        decreases branches - t,
    {
        proof {
            lemma_block_fits(t as int, branches as int, width);
            assert(branches * river_draws(samples as int) >= 0) by (nonlinear_arith)
                requires samples >= 0;
            assert(river_draws(samples as int) <= branches * river_draws(samples as int)) by (nonlinear_arith)
                requires branches >= 1, samples >= 0;
        }
        let d = take_draws(draws, at, 1);
        let (turn, rest) = sample_without_replacement(deck.as_slice(), 1, d.as_slice());
        proof {
            lemma_split_lengths(deck@, draws@, at as int, 1);
        }
        push_rivers(scenarios, holes, responder, flop, turn[0], &rest, branches, samples, draws, at + 1);
        proof {
            assert(scenarios@ =~= before + turn_block(holes, responder as int, flop@, deck@, branches as int, samples as int, draws@, start as int, t as int + 1));
        }
        t += 1;
        let step = 1 + (branches as usize) * (1 + 2 * (samples as usize));
        at = at + step;
    }
}

/// Draw the nested chance tree of the causal sample game for a responder
/// holding `responder_holes`: `branches` flops, `branches` turns under each,
/// `branches` rivers under each turn, and `samples` hidden opponent hands
/// under each runout, in that nesting order. Each card draw is one partial
/// Fisher-Yates step driven by the next value of `draws`.
pub fn sample_causal_scenarios(
    responder_holes: [u8; 2],
    responder: usize,
    public_branches_per_street: u32,
    opponent_samples_per_runout: u32,
    draws: &[usize],
) -> (scenarios: Vec<Deal>)
    requires
        responder < 2,
        causal_draws(public_branches_per_street as int, opponent_samples_per_runout as int) <= draws@.len(),
    ensures
        scenarios@ == causal_scenario_tree(
            responder_holes,
            responder as int,
            public_branches_per_street as int,
            opponent_samples_per_runout as int,
            draws@,
        ),
{
    let branches = public_branches_per_street;
    let samples = opponent_samples_per_runout;
    let mut used: Vec<u8> = Vec::new();
    used.push(responder_holes[0]);
    used.push(responder_holes[1]);
    proof {
        assert(used@ =~= responder_holes@);
    }
    let available = free_cards(&used);
    let ghost pool = as_cards(free_below(responder_holes@, 52));
    proof {
        lemma_free_below_count(used@, 52);
        assert(available@ =~= pool);
    }
    let ghost width = flop_draws(branches as int, samples as int);
    let mut scenarios: Vec<Deal> = Vec::new();
    let total = draws.len();
    let mut f: u32 = 0;
    let mut at: usize = 0;
    proof {
        assert(0 * width == 0);
    }
    while f < branches
        invariant
            f <= branches,
            total == draws@.len(),
            responder < 2,
            available@ == pool,
            pool.len() >= 50,
            width == flop_draws(branches as int, samples as int),
            branches * width <= draws@.len(),
            at == f * width,
            scenarios@ == flop_block(responder_holes, responder as int, pool, branches as int, samples as int, draws@, f as int),
        decreases branches - f,
    {
        proof {
            lemma_block_fits(f as int, branches as int, width);
            assert(branches * turn_draws(branches as int, samples as int) >= 0) by (nonlinear_arith)
                requires branches >= 0, samples >= 0;
            assert(turn_draws(branches as int, samples as int) <= branches * turn_draws(branches as int, samples as int)) by (nonlinear_arith)
                requires branches >= 1, samples >= 0;
            assert(river_draws(samples as int) <= branches * river_draws(samples as int)) by (nonlinear_arith)
                requires branches >= 1, samples >= 0;
        }
        let d = take_draws(draws, at, 3);
        let (flop, rest) = sample_without_replacement(available.as_slice(), 3, d.as_slice());
        proof {
            lemma_split_lengths(pool, draws@, at as int, 3);
        }
        push_turns(&mut scenarios, responder_holes, responder, &flop, &rest, branches, samples, draws, at + 3);
        f += 1;
        let step = 3 + (branches as usize) * (1 + (branches as usize) * (1 + 2 * (samples as usize)));
        at = at + step;
    }
    scenarios
}

/// No card of `deck` is among `used`.
pub open spec fn apart(deck: Seq<u8>, used: Seq<u8>) -> bool {
    forall|x: u8| deck.contains(x) ==> !used.contains(x)
}

/// Splitting a deck without repeats draws distinct cards of the deck and
/// leaves the others, still without repeats.
proof fn lemma_split_keeps_cards_apart(deck: Seq<u8>, draws: Seq<usize>, start: int, count: int)
    requires
        deck.no_duplicates(),
        0 <= count <= deck.len(),
    ensures
        ({
            let (a, b) = split_at(deck, draws, start, count);
            &&& a.len() == count
            &&& b.len() == deck.len() - count
            &&& a.no_duplicates()
            &&& b.no_duplicates()
            &&& forall|x: u8| a.contains(x) ==> deck.contains(x) && !b.contains(x)
            &&& forall|x: u8| b.contains(x) ==> deck.contains(x)
        }),
{
    broadcast use vstd::seq_lib::group_to_multiset_ensures;
    let d = draws.subrange(start, start + count);
    let s = shuffled_prefix(deck, d, count);
    lemma_shuffled_prefix_len(deck, d, count);
    law_sample_without_replacement_keeps_cards(deck, d, count);
    assert(s.take(count) + s.skip(count) =~= s);
    deck.lemma_multiset_has_no_duplicates();
    assert forall|x: u8| s.to_multiset().contains(x) implies s.to_multiset().count(x) == 1 by {
        assert(deck.to_multiset().contains(x));
    }
    s.lemma_multiset_has_no_duplicates_conv();
    let a = s.take(count);
    let b = s.skip(count);
    assert forall|x: u8| a.contains(x) implies deck.contains(x) && !b.contains(x) by {
        let i = choose|i: int| 0 <= i < a.len() && a[i] == x;
        assert(s[i] == x);
        assert(s.contains(x));
        assert(s.to_multiset().count(x) > 0);
        if b.contains(x) {
            let j = choose|j: int| 0 <= j < b.len() && b[j] == x;
            assert(s[count + j] == x);
        }
    }
    assert forall|x: u8| b.contains(x) implies deck.contains(x) by {
        let j = choose|j: int| 0 <= j < b.len() && b[j] == x;
        assert(s[count + j] == x);
        assert(s.contains(x));
        assert(s.to_multiset().count(x) > 0);
    }
    assert forall|i: int, j: int| 0 <= i < a.len() && 0 <= j < a.len() && i != j implies a[i] != a[j] by {
        assert(a[i] == s[i] && a[j] == s[j]);
    }
    assert forall|i: int, j: int| 0 <= i < b.len() && 0 <= j < b.len() && i != j implies b[i] != b[j] by {
        assert(b[i] == s[count + i] && b[j] == s[count + j]);
    }
}

/// Every scenario of a hidden-hand block keeps the responder's hand and
/// holds nine different cards.
proof fn lemma_hidden_block_cards(
    holes: [u8; 2],
    responder: int,
    flop: Seq<u8>,
    turn: u8,
    river: u8,
    deck: Seq<u8>,
    draws: Seq<usize>,
    start: int,
    n: int,
)
    requires
        0 <= responder < 2,
        n >= 0,
        flop.len() == 3,
        (holes@ + flop + seq![turn, river]).no_duplicates(),
        deck.no_duplicates(),
        deck.len() >= 2,
        apart(deck, holes@ + flop + seq![turn, river]),
    ensures
        hidden_block(holes, responder, flop, turn, river, deck, draws, start, n).len() == n,
        forall|i: int|
            0 <= i < n ==> {
                let d = #[trigger] hidden_block(holes, responder, flop, turn, river, deck, draws, start, n)[i];
                &&& d.holes[responder] == holes
                &&& deal_cards(d).no_duplicates()
            },
    decreases n,
{
    if n > 0 {
        lemma_hidden_block_cards(holes, responder, flop, turn, river, deck, draws, start, n - 1);
        let used = holes@ + flop + seq![turn, river];
        let (opp, rest) = split_at(deck, draws, start + 2 * (n - 1), 2);
        lemma_split_keeps_cards_apart(deck, draws, start + 2 * (n - 1), 2);
        let d = scenario(holes, responder, flop, turn, river, opp);
        let block = hidden_block(holes, responder, flop, turn, river, deck, draws, start, n);
        assert(block[n - 1] == d);
        assert(opp.contains(opp[0]) && opp.contains(opp[1]));
        assert(!used.contains(opp[0]) && !used.contains(opp[1]));
        let cards = deal_cards(d);
        assert(used[0] == holes[0] && used[1] == holes[1] && used[2] == flop[0] && used[3] == flop[1]);
        assert(used[4] == flop[2] && used[5] == turn && used[6] == river);
        assert forall|x: int| 0 <= x < 7 implies used[x] != opp[0] && used[x] != opp[1] by {
            assert(used.contains(used[x]));
        }
        assert forall|i: int, j: int| 0 <= i < cards.len() && 0 <= j < cards.len() && i != j implies cards[i] != cards[j] by {
            assert(opp[0] != opp[1]);
        }
    }
}

/// Every scenario of a river block keeps the responder's hand and holds
/// nine different cards.
proof fn lemma_river_block_cards(
    holes: [u8; 2],
    responder: int,
    flop: Seq<u8>,
    turn: u8,
    deck: Seq<u8>,
    samples: int,
    draws: Seq<usize>,
    start: int,
    n: int,
)
    requires
        0 <= responder < 2,
        n >= 0,
        samples >= 0,
        flop.len() == 3,
        (holes@ + flop + seq![turn]).no_duplicates(),
        deck.no_duplicates(),
        deck.len() >= 3,
        apart(deck, holes@ + flop + seq![turn]),
    ensures
        river_block(holes, responder, flop, turn, deck, samples, draws, start, n).len() == n * samples,
        forall|i: int|
            0 <= i < n * samples ==> {
                let d = #[trigger] river_block(holes, responder, flop, turn, deck, samples, draws, start, n)[i];
                &&& d.holes[responder] == holes
                &&& deal_cards(d).no_duplicates()
            },
    decreases n,
{
    if n == 0 {
        assert(0 * samples == 0);
    } else {
        lemma_river_block_cards(holes, responder, flop, turn, deck, samples, draws, start, n - 1);
        let at = start + (n - 1) * river_draws(samples);
        let (river, rest) = split_at(deck, draws, at, 1);
        lemma_split_keeps_cards_apart(deck, draws, at, 1);
        let used = holes@ + flop + seq![turn];
        let used2 = holes@ + flop + seq![turn, river[0]];
        assert(river.contains(river[0]));
        assert(!used.contains(river[0]));
        assert(used2 =~= used.push(river[0]));
        assert forall|i: int, j: int| 0 <= i < used2.len() && 0 <= j < used2.len() && i != j implies used2[i] != used2[j] by {
            if i < used.len() && j < used.len() {
            } else if i < used.len() {
                assert(used.contains(used[i]));
            } else if j < used.len() {
                assert(used.contains(used[j]));
            }
        }
        assert forall|x: u8| rest.contains(x) implies !used2.contains(x) by {
            assert(deck.contains(x));
            if used2.contains(x) {
                let k = choose|k: int| 0 <= k < used2.len() && used2[k] == x;
                if k < used.len() {
                    assert(used.contains(x));
                }
            }
        }
        lemma_hidden_block_cards(holes, responder, flop, turn, river[0], rest, draws, at + 1, samples);
        let prev = river_block(holes, responder, flop, turn, deck, samples, draws, start, n - 1);
        let block = hidden_block(holes, responder, flop, turn, river[0], rest, draws, at + 1, samples);
        assert(n * samples == (n - 1) * samples + samples) by (nonlinear_arith);
        assert(river_block(holes, responder, flop, turn, deck, samples, draws, start, n) == prev + block);
        assert forall|i: int| 0 <= i < n * samples implies {
            let d = #[trigger] river_block(holes, responder, flop, turn, deck, samples, draws, start, n)[i];
            &&& d.holes[responder] == holes
            &&& deal_cards(d).no_duplicates()
        } by {
            if i < prev.len() {
                assert(river_block(holes, responder, flop, turn, deck, samples, draws, start, n)[i] == prev[i]);
            } else {
                assert(river_block(holes, responder, flop, turn, deck, samples, draws, start, n)[i] == block[i - prev.len()]);
            }
        }
    }
}

/// Every scenario of a turn block keeps the responder's hand and holds nine
/// different cards.
proof fn lemma_turn_block_cards(
    holes: [u8; 2],
    responder: int,
    flop: Seq<u8>,
    deck: Seq<u8>,
    branches: int,
    samples: int,
    draws: Seq<usize>,
    start: int,
    n: int,
)
    requires
        0 <= responder < 2,
        n >= 0,
        branches >= 0,
        samples >= 0,
        flop.len() == 3,
        (holes@ + flop).no_duplicates(),
        deck.no_duplicates(),
        deck.len() >= 4,
        apart(deck, holes@ + flop),
    ensures
        turn_block(holes, responder, flop, deck, branches, samples, draws, start, n).len() == n * (branches * samples),
        forall|i: int|
            0 <= i < n * (branches * samples) ==> {
                let d = #[trigger] turn_block(holes, responder, flop, deck, branches, samples, draws, start, n)[i];
                &&& d.holes[responder] == holes
                &&& deal_cards(d).no_duplicates()
            },
    decreases n,
{
    if n == 0 {
        assert(0 * (branches * samples) == 0);
    } else {
        lemma_turn_block_cards(holes, responder, flop, deck, branches, samples, draws, start, n - 1);
        let at = start + (n - 1) * turn_draws(branches, samples);
        let (turn, rest) = split_at(deck, draws, at, 1);
        lemma_split_keeps_cards_apart(deck, draws, at, 1);
        let used = holes@ + flop;
        let used2 = holes@ + flop + seq![turn[0]];
        assert(turn.contains(turn[0]));
        assert(!used.contains(turn[0]));
        assert(used2 =~= used.push(turn[0]));
        assert forall|i: int, j: int| 0 <= i < used2.len() && 0 <= j < used2.len() && i != j implies used2[i] != used2[j] by {
            if i < used.len() && j < used.len() {
            } else if i < used.len() {
                assert(used.contains(used[i]));
            } else if j < used.len() {
                assert(used.contains(used[j]));
            }
        }
        assert forall|x: u8| rest.contains(x) implies !used2.contains(x) by {
            assert(deck.contains(x));
            if used2.contains(x) {
                let k = choose|k: int| 0 <= k < used2.len() && used2[k] == x;
                if k < used.len() {
                    assert(used.contains(x));
                }
            }
        }
        lemma_river_block_cards(holes, responder, flop, turn[0], rest, samples, draws, at + 1, branches);
        let prev = turn_block(holes, responder, flop, deck, branches, samples, draws, start, n - 1);
        let block = river_block(holes, responder, flop, turn[0], rest, samples, draws, at + 1, branches);
        assert(n * (branches * samples) == (n - 1) * (branches * samples) + branches * samples) by (nonlinear_arith);
        assert(turn_block(holes, responder, flop, deck, branches, samples, draws, start, n) == prev + block);
        assert forall|i: int| 0 <= i < n * (branches * samples) implies {
            let d = #[trigger] turn_block(holes, responder, flop, deck, branches, samples, draws, start, n)[i];
            &&& d.holes[responder] == holes
            &&& deal_cards(d).no_duplicates()
        } by {
            if i < prev.len() {
                assert(turn_block(holes, responder, flop, deck, branches, samples, draws, start, n)[i] == prev[i]);
            } else {
                assert(turn_block(holes, responder, flop, deck, branches, samples, draws, start, n)[i] == block[i - prev.len()]);
            }
        }
    }
}

/// Every scenario of a flop block keeps the responder's hand and holds nine
/// different cards.
proof fn lemma_flop_block_cards(
    holes: [u8; 2],
    responder: int,
    deck: Seq<u8>,
    branches: int,
    samples: int,
    draws: Seq<usize>,
    n: int,
)
    requires
        0 <= responder < 2,
        n >= 0,
        branches >= 0,
        samples >= 0,
        holes[0] != holes[1],
        deck.no_duplicates(),
        deck.len() >= 7,
        apart(deck, holes@),
    ensures
        flop_block(holes, responder, deck, branches, samples, draws, n).len() == n * (branches * (branches * samples)),
        forall|i: int|
            0 <= i < n * (branches * (branches * samples)) ==> {
                let d = #[trigger] flop_block(holes, responder, deck, branches, samples, draws, n)[i];
                &&& d.holes[responder] == holes
                &&& deal_cards(d).no_duplicates()
            },
    decreases n,
{
    let per = branches * (branches * samples);
    if n == 0 {
        assert(0 * per == 0);
    } else {
        lemma_flop_block_cards(holes, responder, deck, branches, samples, draws, n - 1);
        let at = (n - 1) * flop_draws(branches, samples);
        let (flop, rest) = split_at(deck, draws, at, 3);
        lemma_split_keeps_cards_apart(deck, draws, at, 3);
        let used = holes@;
        let used2 = holes@ + flop;
        assert(flop.contains(flop[0]) && flop.contains(flop[1]) && flop.contains(flop[2]));
        assert forall|i: int, j: int| 0 <= i < used2.len() && 0 <= j < used2.len() && i != j implies used2[i] != used2[j] by {
            if i >= 2 && j >= 2 {
                assert(flop[i - 2] != flop[j - 2]);
            } else if i < 2 && j >= 2 {
                assert(flop.contains(used2[j]));
                assert(deck.contains(used2[j]));
                assert(used.contains(used[i]));
            } else if j < 2 && i >= 2 {
                assert(flop.contains(used2[i]));
                assert(deck.contains(used2[i]));
                assert(used.contains(used[j]));
            }
        }
        assert forall|x: u8| rest.contains(x) implies !used2.contains(x) by {
            assert(deck.contains(x));
            if used2.contains(x) {
                let k = choose|k: int| 0 <= k < used2.len() && used2[k] == x;
                if k < 2 {
                    assert(used.contains(x));
                } else {
                    assert(flop[k - 2] == x);
                    assert(flop.contains(x));
                }
            }
        }
        lemma_turn_block_cards(holes, responder, flop, rest, branches, samples, draws, at + 3, branches);
        let prev = flop_block(holes, responder, deck, branches, samples, draws, n - 1);
        let block = turn_block(holes, responder, flop, rest, branches, samples, draws, at + 3, branches);
        assert(n * per == (n - 1) * per + per) by (nonlinear_arith);
        assert(flop_block(holes, responder, deck, branches, samples, draws, n) == prev + block);
        assert forall|i: int| 0 <= i < n * per implies {
            let d = #[trigger] flop_block(holes, responder, deck, branches, samples, draws, n)[i];
            &&& d.holes[responder] == holes
            &&& deal_cards(d).no_duplicates()
        } by {
            if i < prev.len() {
                assert(flop_block(holes, responder, deck, branches, samples, draws, n)[i] == prev[i]);
            } else {
                assert(flop_block(holes, responder, deck, branches, samples, draws, n)[i] == block[i - prev.len()]);
            }
        }
    }
}

/// The causal chance tree has `branches^3 * samples` scenarios; each keeps
/// the responder's hand, and each deals nine different cards.
pub proof fn law_causal_scenarios_keep_cards(holes: [u8; 2], responder: int, branches: int, samples: int, draws: Seq<usize>)
    requires
        0 <= responder < 2,
        branches >= 0,
        samples >= 0,
        holes[0] != holes[1],
    ensures
        causal_scenario_tree(holes, responder, branches, samples, draws).len() == branches * branches * branches * samples,
        forall|i: int|
            0 <= i < branches * branches * branches * samples ==> {
                let d = #[trigger] causal_scenario_tree(holes, responder, branches, samples, draws)[i];
                &&& d.holes[responder] == holes
                &&& deal_cards(d).no_duplicates()
            },
{
    let free = free_below(holes@, 52);
    let pool = as_cards(free);
    lemma_free_below(holes@, 52);
    lemma_free_below_count(holes@, 52);
    assert(pool.len() == free.len());
    assert forall|i: int| 0 <= i < pool.len() implies pool[i] as int == #[trigger] free[i] by {
        assert(0 <= free[i] < 52);
    }
    assert forall|i: int, j: int| 0 <= i < pool.len() && 0 <= j < pool.len() && i != j implies pool[i] != pool[j] by {
        if i < j {
            assert(free[i] < free[j]);
        } else {
            assert(free[j] < free[i]);
        }
    }
    assert forall|x: u8| pool.contains(x) implies !holes@.contains(x) by {
        let k = choose|k: int| 0 <= k < pool.len() && pool[k] == x;
        assert(free.contains(free[k]));
        assert(free[k] == x as int);
    }
    lemma_flop_block_cards(holes, responder, pool, branches, samples, draws, branches);
    assert(branches * (branches * (branches * samples)) == branches * branches * branches * samples) by (nonlinear_arith);
}

} // verus!
