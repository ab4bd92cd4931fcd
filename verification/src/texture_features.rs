//! The board-texture block of the state features: sixty-four slots of
//! one-hot bands and indicators over the private cards and the board. Each
//! slot is given as a whole-number numerator; slots 61 and 62 are divided by
//! five and slot 63 by three, all others by one.
use vstd::prelude::*;
use crate::game::Street;
use crate::flop::{lemma_relabel_parts, relabel};
use crate::texture::{
    has_straight, is_renaming, rank_bit, rank_mask_has_straight, relabel_cards, straight_density,
    straight_window_density,
};

verus! {

/// Slots in the texture block.
pub const TEXTURE_FEATURE_COUNT: usize = 64;

/// How many of `cards` have rank `r`.
pub open spec fn count_rank(cards: Seq<u8>, r: int) -> int
    decreases cards.len(),
{
    if cards.len() == 0 {
        0
    } else {
        count_rank(cards.drop_last(), r) + if cards.last() / 4 == r { 1int } else { 0int }
    }
}

/// How many of `cards` have suit `s`.
pub open spec fn count_suit(cards: Seq<u8>, s: int) -> int
    decreases cards.len(),
{
    if cards.len() == 0 {
        0
    } else {
        count_suit(cards.drop_last(), s) + if cards.last() % 4 == s { 1int } else { 0int }
    }
}

/// The most cards of one rank among ranks below `n`.
pub open spec fn max_rank_below(cards: Seq<u8>, n: int) -> int
    decreases n,
{
    if n <= 0 {
        0
    } else {
        let rest = max_rank_below(cards, n - 1);
        if count_rank(cards, n - 1) > rest { count_rank(cards, n - 1) } else { rest }
    }
}

/// The most cards of one suit among suits below `n`.
pub open spec fn max_suit_below(cards: Seq<u8>, n: int) -> int
    decreases n,
{
    if n <= 0 {
        0
    } else {
        let rest = max_suit_below(cards, n - 1);
        if count_suit(cards, n - 1) > rest { count_suit(cards, n - 1) } else { rest }
    }
}

/// The most cards of one rank.
pub open spec fn max_rank_count(cards: Seq<u8>) -> int {
    max_rank_below(cards, 13)
}

/// The most cards of one suit.
pub open spec fn max_suit_count(cards: Seq<u8>) -> int {
    max_suit_below(cards, 4)
}

/// How many ranks below `n` appear exactly `k` times among `cards`.
pub open spec fn ranks_with_count(cards: Seq<u8>, k: int, n: int) -> int
    decreases n,
{
    if n <= 0 {
        0
    } else {
        ranks_with_count(cards, k, n - 1) + if count_rank(cards, n - 1) == k { 1int } else { 0int }
    }
}

/// How many ranks below `n` appear among `cards`.
pub open spec fn ranks_present(cards: Seq<u8>, n: int) -> int
    decreases n,
{
    if n <= 0 {
        0
    } else {
        ranks_present(cards, n - 1) + if count_rank(cards, n - 1) > 0 { 1int } else { 0int }
    }
}

/// The ranks present among `cards`, one bit per rank.
pub open spec fn ranks_mask(cards: Seq<u8>) -> u16
    decreases cards.len(),
{
    if cards.len() == 0 {
        0
    } else {
        ranks_mask(cards.drop_last()) | (1u16 << ((cards.last() / 4) as u16))
    }
}

/// The highest rank among `cards` (zero for none).
pub open spec fn highest_rank(cards: Seq<u8>) -> int
    decreases cards.len(),
{
    if cards.len() == 0 {
        0
    } else {
        let rest = highest_rank(cards.drop_last());
        if (cards.last() / 4) as int > rest { (cards.last() / 4) as int } else { rest }
    }
}

/// The lowest rank among `cards`, which are not empty.
pub open spec fn lowest_rank(cards: Seq<u8>) -> int
    decreases cards.len(),
{
    if cards.len() <= 1 {
        (cards[0] / 4) as int
    } else {
        let rest = lowest_rank(cards.drop_last());
        if ((cards.last() / 4) as int) < rest { (cards.last() / 4) as int } else { rest }
    }
}

/// How many of `cards` are ten-high or better (a rank of ten or more).
pub open spec fn count_broadway(cards: Seq<u8>) -> int
    decreases cards.len(),
{
    if cards.len() == 0 {
        0
    } else {
        count_broadway(cards.drop_last()) + if cards.last() / 4 >= 10 { 1int } else { 0int }
    }
}

/// `x - 1`, at least zero, at most `cap`: the band of a positive count.
pub open spec fn band(x: int, cap: int) -> int {
    let y = if x >= 1 { x - 1 } else { 0 };
    if y > cap { cap } else { y }
}

/// One for true.
pub open spec fn flag(b: bool) -> int {
    if b { 1 } else { 0 }
}

/// Whether adding rank `r` to the ranks of `mask` completes a straight
/// that `mask` does not hold the rank of.
pub open spec fn completes_straight(mask: u16, r: int) -> bool {
    !rank_bit(mask, r as u16) && has_straight(mask | (1u16 << (r as u16)))
}

/// The ranks below `n` that would complete a straight with `mask`.
pub open spec fn outs_below(mask: u16, n: int) -> int
    decreases n,
{
    if n <= 0 {
        0
    } else {
        outs_below(mask, n - 1) + if completes_straight(mask, n - 1) { 1int } else { 0int }
    }
}

/// The numerator of texture slot `i` for a hand with `private` cards on
/// `board` on `street`, whose best hand has category `category`.
pub open spec fn texture_value(private: Seq<u8>, board: Seq<u8>, street: Street, category: int, i: int) -> int {
    if board.len() == 0 {
        if i == 30 { flag(private[0] / 4 == private[1] / 4) } else { 0 }
    } else {
        let full = board + private;
        let board_max_rank = max_rank_count(board);
        let board_max_suit = max_suit_count(board);
        let board_mask = ranks_mask(board);
        let density = straight_density(board_mask);
        let high = highest_rank(board);
        let low = lowest_rank(board);
        let h0 = (private[0] / 4) as int;
        let h1 = (private[1] / 4) as int;
        let on_board0 = count_rank(board, h0) > 0;
        let on_board1 = count_rank(board, h1) > 0;
        let pocket_pair = h0 == h1;
        let full_mask = ranks_mask(full);
        let full_max_suit = max_suit_count(full);
        let made_straight = has_straight(full_mask);
        let outs = if street == Street::River || made_straight { 0 } else { outs_below(full_mask, 13) };
        let high_band = if high >= 10 { 2int } else if high >= 7 { 1int } else { 0int };
        let overcards = flag(h0 > high) + flag(h1 > high);
        let pairs = ranks_with_count(board, 2, 13);
        if i == 0 {
            1
        } else if 1 <= i < 10 {
            flag(i == 1 + category)
        } else if 10 <= i < 14 {
            flag(i == 10 + band(board_max_rank, 3))
        } else if 14 <= i < 19 {
            flag(i == 14 + band(board_max_suit, 4))
        } else if 19 <= i < 24 {
            flag(i == 19 + band(density, 4))
        } else if 24 <= i < 27 {
            flag(i == 24 + high_band)
        } else if 27 <= i < 30 {
            flag(i == 27 + if overcards > 2 { 2 } else { overcards })
        } else if i == 30 {
            flag(pocket_pair)
        } else if i == 31 {
            flag(pocket_pair && h0 > high)
        } else if i == 32 {
            flag(h0 == high || h1 == high)
        } else if i == 33 {
            flag((h0 != high && h0 != low && on_board0) || (h1 != high && h1 != low && on_board1))
        } else if i == 34 {
            flag(low != high && (h0 == low || h1 == low))
        } else if i == 35 {
            flag(on_board0 && on_board1)
        } else if i == 36 {
            flag(on_board0 != on_board1)
        } else if i == 37 {
            flag(pairs >= 1)
        } else if i == 38 {
            flag(pairs >= 2)
        } else if i == 39 {
            flag(ranks_with_count(board, 3, 13) > 0)
        } else if i == 40 {
            flag(ranks_with_count(board, 4, 13) > 0)
        } else if 41 <= i < 45 {
            flag(i == 41 + band(max_rank_count(full), 3))
        } else if 45 <= i < 50 {
            flag(i == 45 + band(full_max_suit, 4))
        } else if i == 50 {
            flag(made_straight)
        } else if i == 51 {
            flag(street != Street::River && full_max_suit == 4)
        } else if i == 52 {
            flag(street == Street::Flop && full_max_suit == 3)
        } else if 53 <= i < 56 {
            flag(i == 53 + if outs > 2 { 2 } else { outs })
        } else if i == 56 {
            flag(board_max_suit == 1)
        } else if i == 57 {
            flag(board_max_suit == 2)
        } else if i == 58 {
            flag(board_max_suit >= 3)
        } else if i == 59 {
            flag(density >= 3)
        } else if i == 60 {
            flag(density >= 4)
        } else if i == 61 {
            count_broadway(board)
        } else if i == 62 {
            ranks_present(board, 13)
        } else if i == 63 {
            flag(board_max_rank >= 2) + flag(board_max_suit >= 2) + flag(density >= 3)
        } else {
            0
        }
    }
}

/// Cards of a deck: below 52.
pub open spec fn cards_valid(cards: Seq<u8>) -> bool {
    forall|i: int| 0 <= i < cards.len() ==> #[trigger] cards[i] < 52
}

fn rank_count(cards: &[u8], r: u8) -> (n: u8)
    requires
        cards@.len() <= 7,
    ensures
        n == count_rank(cards@, r as int),
        n <= cards@.len(),
{
    let mut n: u8 = 0;
    let mut i: usize = 0;
    while i < cards.len()
        invariant
            i <= cards@.len() <= 7,
            n == count_rank(cards@.take(i as int), r as int),
            n <= i,
        decreases cards.len() - i,
    {
        proof {
            assert(cards@.take(i as int + 1).drop_last() =~= cards@.take(i as int));
        }
        if cards[i] / 4 == r {
            n += 1;
        }
        i += 1;
    }
    proof {
        assert(cards@.take(i as int) =~= cards@);
    }
    n
}

fn suit_count(cards: &[u8], su: u8) -> (n: u8)
    requires
        cards@.len() <= 7,
    ensures
        n == count_suit(cards@, su as int),
        n <= cards@.len(),
{
    let mut n: u8 = 0;
    let mut i: usize = 0;
    while i < cards.len()
        invariant
            i <= cards@.len() <= 7,
            n == count_suit(cards@.take(i as int), su as int),
            n <= i,
        decreases cards.len() - i,
    {
        proof {
            assert(cards@.take(i as int + 1).drop_last() =~= cards@.take(i as int));
        }
        if cards[i] % 4 == su {
            n += 1;
        }
        i += 1;
    }
    proof {
        assert(cards@.take(i as int) =~= cards@);
    }
    n
}

fn max_rank(cards: &[u8]) -> (m: u8)
    requires
        cards@.len() <= 7,
    ensures
        m == max_rank_count(cards@),
{
    let mut m: u8 = 0;
    let mut r: u8 = 0;
    while r < 13
        invariant
            r <= 13,
            cards@.len() <= 7,
            m == max_rank_below(cards@, r as int),
        decreases 13 - r,
    {
        let c = rank_count(cards, r);
        if c > m {
            m = c;
        }
        r += 1;
    }
    m
}

fn max_suit(cards: &[u8]) -> (m: u8)
    requires
        cards@.len() <= 7,
    ensures
        m == max_suit_count(cards@),
{
    let mut m: u8 = 0;
    let mut su: u8 = 0;
    while su < 4
        invariant
            su <= 4,
            cards@.len() <= 7,
            m == max_suit_below(cards@, su as int),
        decreases 4 - su,
    {
        let c = suit_count(cards, su);
        if c > m {
            m = c;
        }
        su += 1;
    }
    m
}

fn count_ranks_with(cards: &[u8], k: u8) -> (n: u8)
    requires
        cards@.len() <= 7,
    ensures
        n == ranks_with_count(cards@, k as int, 13),
{
    let mut n: u8 = 0;
    let mut r: u8 = 0;
    while r < 13
        invariant
            r <= 13,
            cards@.len() <= 7,
            n == ranks_with_count(cards@, k as int, r as int),
            n <= r,
        decreases 13 - r,
    {
        if rank_count(cards, r) == k {
            n += 1;
        }
        r += 1;
    }
    n
}

fn count_present_ranks(cards: &[u8]) -> (n: u8)
    requires
        cards@.len() <= 7,
    ensures
        n == ranks_present(cards@, 13),
{
    let mut n: u8 = 0;
    let mut r: u8 = 0;
    while r < 13
        invariant
            r <= 13,
            cards@.len() <= 7,
            n == ranks_present(cards@, r as int),
            n <= r,
        decreases 13 - r,
    {
        if rank_count(cards, r) > 0 {
            n += 1;
        }
        r += 1;
    }
    n
}

fn mask_of(cards: &[u8]) -> (m: u16)
    requires
        cards_valid(cards@),
    ensures
        m == ranks_mask(cards@),
{
    let mut m: u16 = 0;
    let mut i: usize = 0;
    while i < cards.len()
        invariant
            i <= cards@.len(),
            cards_valid(cards@),
            m == ranks_mask(cards@.take(i as int)),
        decreases cards.len() - i,
    {
        proof {
            assert(cards@.take(i as int + 1).drop_last() =~= cards@.take(i as int));
            assert(cards@[i as int] < 52);
        }
        let rank: u16 = (cards[i] / 4) as u16;
        m = m | (1u16 << rank);
        i += 1;
    }
    proof {
        assert(cards@.take(i as int) =~= cards@);
    }
    m
}

fn high_rank(cards: &[u8]) -> (h: u8)
    ensures
        h == highest_rank(cards@),
{
    let mut h: u8 = 0;
    let mut i: usize = 0;
    while i < cards.len()
        invariant
            i <= cards@.len(),
            h == highest_rank(cards@.take(i as int)),
        decreases cards.len() - i,
    {
        proof {
            assert(cards@.take(i as int + 1).drop_last() =~= cards@.take(i as int));
        }
        if cards[i] / 4 > h {
            h = cards[i] / 4;
        }
        i += 1;
    }
    proof {
        assert(cards@.take(i as int) =~= cards@);
    }
    h
}

fn low_rank(cards: &[u8]) -> (l: u8)
    requires
        cards@.len() > 0,
    ensures
        l == lowest_rank(cards@),
{
    let mut l: u8 = cards[0] / 4;
    let mut i: usize = 1;
    proof {
        assert(cards@.take(1).len() == 1);
    }
    while i < cards.len()
        invariant
            1 <= i <= cards@.len(),
            l == lowest_rank(cards@.take(i as int)),
        decreases cards.len() - i,
    {
        proof {
            assert(cards@.take(i as int + 1).drop_last() =~= cards@.take(i as int));
        }
        if cards[i] / 4 < l {
            l = cards[i] / 4;
        }
        i += 1;
    }
    proof {
        assert(cards@.take(i as int) =~= cards@);
    }
    l
}

fn broadway_count(cards: &[u8]) -> (n: u8)
    requires
        cards@.len() <= 7,
    ensures
        n == count_broadway(cards@),
{
    let mut n: u8 = 0;
    let mut i: usize = 0;
    while i < cards.len()
        invariant
            i <= cards@.len() <= 7,
            n == count_broadway(cards@.take(i as int)),
            n <= i,
        decreases cards.len() - i,
    {
        proof {
            assert(cards@.take(i as int + 1).drop_last() =~= cards@.take(i as int));
        }
        if cards[i] / 4 >= 10 {
            n += 1;
        }
        i += 1;
    }
    proof {
        assert(cards@.take(i as int) =~= cards@);
    }
    n
}

proof fn lemma_bit_clear(mask: u16, r: u16)
    requires
        r < 16,
    ensures
        ((mask & (1u16 << r)) == 0u16) == !rank_bit(mask, r),
{
    assert(((mask & (1u16 << r)) == 0u16) == !((mask >> r) & 1u16 == 1u16)) by (bit_vector)
        requires r < 16;
}

fn count_outs(mask: u16) -> (n: u8)
    ensures
        n == outs_below(mask, 13),
{
    let mut n: u8 = 0;
    let mut r: u16 = 0;
    while r < 13
        invariant
            r <= 13,
            n == outs_below(mask, r as int),
            n <= r,
        decreases 13 - r,
    {
        proof {
            lemma_bit_clear(mask, r);
        }
        if mask & (1u16 << r) == 0 && rank_mask_has_straight(mask | (1u16 << r)) {
            n += 1;
        }
        r += 1;
    }
    n
}

fn flag_u8(b: bool) -> (n: u8)
    ensures
        n == flag(b),
{
    if b { 1 } else { 0 }
}

fn band_index(x: u8, cap: u8) -> (b: u8)
    ensures
        b == band(x as int, cap as int),
{
    let y = if x >= 1 { x - 1 } else { 0 };
    if y > cap { cap } else { y }
}

/// The quantities the texture slots are read from.
struct TextureSummary {
    board_max_rank: u8,
    board_max_suit: u8,
    density: u8,
    high: u8,
    low: u8,
    h0: u8,
    h1: u8,
    on_board0: bool,
    on_board1: bool,
    full_max_rank: u8,
    full_max_suit: u8,
    made_straight: bool,
    outs: u8,
    pairs: u8,
    trips: u8,
    quads: u8,
    broadway: u8,
    present: u8,
    river: bool,
    flop: bool,
}

spec fn summary_matches(t: TextureSummary, private: Seq<u8>, board: Seq<u8>, street: Street) -> bool {
    let full = board + private;
    &&& t.board_max_rank == max_rank_count(board)
    &&& t.board_max_suit == max_suit_count(board)
    &&& t.density == straight_density(ranks_mask(board))
    &&& t.high == highest_rank(board)
    &&& t.low == lowest_rank(board)
    &&& t.h0 == private[0] / 4
    &&& t.h1 == private[1] / 4
    &&& t.on_board0 == (count_rank(board, (private[0] / 4) as int) > 0)
    &&& t.on_board1 == (count_rank(board, (private[1] / 4) as int) > 0)
    &&& t.full_max_rank == max_rank_count(full)
    &&& t.full_max_suit == max_suit_count(full)
    &&& t.made_straight == has_straight(ranks_mask(full))
    &&& t.outs == (if street == Street::River || has_straight(ranks_mask(full)) { 0 } else { outs_below(ranks_mask(full), 13) })
    &&& t.pairs == ranks_with_count(board, 2, 13)
    &&& t.trips == ranks_with_count(board, 3, 13)
    &&& t.quads == ranks_with_count(board, 4, 13)
    &&& t.broadway == count_broadway(board)
    &&& t.present == ranks_present(board, 13)
    &&& t.river == (street == Street::River)
    &&& t.flop == (street == Street::Flop)
}

fn slot(t: &TextureSummary, category: usize, i: usize, Ghost(private): Ghost<Seq<u8>>, Ghost(board): Ghost<Seq<u8>>, Ghost(street): Ghost<Street>) -> (v: u8)
    requires
        summary_matches(*t, private, board, street),
        board.len() > 0,
        private.len() == 2,
        category <= 8,
        i < TEXTURE_FEATURE_COUNT,
        t.board_max_rank <= 7,
        t.board_max_suit <= 7,
        t.full_max_rank <= 7,
        t.full_max_suit <= 7,
        t.density <= 5,
        t.broadway <= 5,
        t.present <= 13,
    ensures
        v as int == texture_value(private, board, street, category as int, i as int),
{
    let high_band: usize = if t.high >= 10 { 2 } else if t.high >= 7 { 1 } else { 0 };
    let overcards = flag_u8(t.h0 > t.high) + flag_u8(t.h1 > t.high);
    let capped_overcards: usize = if overcards > 2 { 2 } else { overcards as usize };
    let capped_outs: usize = if t.outs > 2 { 2 } else { t.outs as usize };
    if i == 0 {
        1
    } else if 1 <= i && i < 10 {
        flag_u8(i == 1 + category)
    } else if 10 <= i && i < 14 {
        flag_u8(i == 10 + band_index(t.board_max_rank, 3) as usize)
    } else if 14 <= i && i < 19 {
        flag_u8(i == 14 + band_index(t.board_max_suit, 4) as usize)
    } else if 19 <= i && i < 24 {
        flag_u8(i == 19 + band_index(t.density, 4) as usize)
    } else if 24 <= i && i < 27 {
        flag_u8(i == 24 + high_band)
    } else if 27 <= i && i < 30 {
        flag_u8(i == 27 + capped_overcards)
    } else if i == 30 {
        flag_u8(t.h0 == t.h1)
    } else if i == 31 {
        flag_u8(t.h0 == t.h1 && t.h0 > t.high)
    } else if i == 32 {
        flag_u8(t.h0 == t.high || t.h1 == t.high)
    } else if i == 33 {
        flag_u8((t.h0 != t.high && t.h0 != t.low && t.on_board0) || (t.h1 != t.high && t.h1 != t.low && t.on_board1))
    } else if i == 34 {
        flag_u8(t.low != t.high && (t.h0 == t.low || t.h1 == t.low))
    } else if i == 35 {
        flag_u8(t.on_board0 && t.on_board1)
    } else if i == 36 {
        flag_u8(t.on_board0 != t.on_board1)
    } else if i == 37 {
        flag_u8(t.pairs >= 1)
    } else if i == 38 {
        flag_u8(t.pairs >= 2)
    } else if i == 39 {
        flag_u8(t.trips > 0)
    } else if i == 40 {
        flag_u8(t.quads > 0)
    } else if 41 <= i && i < 45 {
        flag_u8(i == 41 + band_index(t.full_max_rank, 3) as usize)
    } else if 45 <= i && i < 50 {
        flag_u8(i == 45 + band_index(t.full_max_suit, 4) as usize)
    } else if i == 50 {
        flag_u8(t.made_straight)
    } else if i == 51 {
        flag_u8(!t.river && t.full_max_suit == 4)
    } else if i == 52 {
        flag_u8(t.flop && t.full_max_suit == 3)
    } else if 53 <= i && i < 56 {
        flag_u8(i == 53 + capped_outs)
    } else if i == 56 {
        flag_u8(t.board_max_suit == 1)
    } else if i == 57 {
        flag_u8(t.board_max_suit == 2)
    } else if i == 58 {
        flag_u8(t.board_max_suit >= 3)
    } else if i == 59 {
        flag_u8(t.density >= 3)
    } else if i == 60 {
        flag_u8(t.density >= 4)
    } else if i == 61 {
        t.broadway
    } else if i == 62 {
        t.present
    } else {
        flag_u8(t.board_max_rank >= 2) + flag_u8(t.board_max_suit >= 2) + flag_u8(t.density >= 3)
    }
}

proof fn lemma_max_rank_bound(cards: Seq<u8>, n: int)
    ensures
        max_rank_below(cards, n) <= cards.len(),
        max_rank_below(cards, n) >= 0,
    decreases n,
{
    if n > 0 {
        lemma_max_rank_bound(cards, n - 1);
        lemma_count_rank_bound(cards, n - 1);
    }
}

proof fn lemma_count_rank_bound(cards: Seq<u8>, r: int)
    ensures
        0 <= count_rank(cards, r) <= cards.len(),
    decreases cards.len(),
{
    if cards.len() > 0 {
        lemma_count_rank_bound(cards.drop_last(), r);
    }
}

fn summarize(private_cards: [u8; 2], board: &[u8], street: Street) -> (t: TextureSummary)
    requires
        private_cards[0] < 52,
        private_cards[1] < 52,
        cards_valid(board@),
        0 < board@.len() <= 5,
    ensures
        summary_matches(t, seq![private_cards[0], private_cards[1]], board@, street),
        t.board_max_rank <= 7,
        t.board_max_suit <= 7,
        t.full_max_rank <= 7,
        t.full_max_suit <= 7,
        t.density <= 5,
        t.broadway <= 5,
        t.present <= 13,
{
    let ghost private = seq![private_cards[0], private_cards[1]];
    let mut full: Vec<u8> = Vec::new();
    let mut i: usize = 0;
    while i < board.len()
        invariant
            i <= board@.len(),
            full@ == board@.take(i as int),
        decreases board.len() - i,
    {
        full.push(board[i]);
        proof {
            assert(board@.take(i as int + 1) =~= board@.take(i as int).push(board@[i as int]));
        }
        i += 1;
    }
    full.push(private_cards[0]);
    full.push(private_cards[1]);
    proof {
        assert(board@.take(i as int) =~= board@);
        assert(full@ =~= board@ + private);
        assert forall|j: int| 0 <= j < full@.len() implies #[trigger] full@[j] < 52 by {
            if j < board@.len() {
                assert(full@[j] == board@[j]);
            }
        }
        lemma_max_rank_bound(board@, 13);
        lemma_max_rank_bound(full@, 13);
        lemma_max_suit_bound(board@, 4);
        lemma_max_suit_bound(full@, 4);
        lemma_broadway_bound(board@);
        lemma_present_bound(board@, 13);
    }
    let h0 = private_cards[0] / 4;
    let h1 = private_cards[1] / 4;
    let full_mask = mask_of(full.as_slice());
    let made_straight = rank_mask_has_straight(full_mask);
    let river = match street {
        Street::River => true,
        _ => false,
    };
    let flop = match street {
        Street::Flop => true,
        _ => false,
    };
    let outs = if river || made_straight { 0 } else { count_outs(full_mask) };
    let density = straight_window_density(mask_of(board));
    TextureSummary {
        board_max_rank: max_rank(board),
        board_max_suit: max_suit(board),
        density: density as u8,
        high: high_rank(board),
        low: low_rank(board),
        h0,
        h1,
        on_board0: rank_count(board, h0) > 0,
        on_board1: rank_count(board, h1) > 0,
        full_max_rank: max_rank(full.as_slice()),
        full_max_suit: max_suit(full.as_slice()),
        made_straight,
        outs,
        pairs: count_ranks_with(board, 2),
        trips: count_ranks_with(board, 3),
        quads: count_ranks_with(board, 4),
        broadway: broadway_count(board),
        present: count_present_ranks(board),
        river,
        flop,
    }
}

proof fn lemma_max_suit_bound(cards: Seq<u8>, n: int)
    ensures
        0 <= max_suit_below(cards, n) <= cards.len(),
    decreases n,
{
    if n > 0 {
        lemma_max_suit_bound(cards, n - 1);
        lemma_count_suit_bound(cards, n - 1);
    }
}

proof fn lemma_count_suit_bound(cards: Seq<u8>, s: int)
    ensures
        0 <= count_suit(cards, s) <= cards.len(),
    decreases cards.len(),
{
    if cards.len() > 0 {
        lemma_count_suit_bound(cards.drop_last(), s);
    }
}

proof fn lemma_broadway_bound(cards: Seq<u8>)
    ensures
        0 <= count_broadway(cards) <= cards.len(),
    decreases cards.len(),
{
    if cards.len() > 0 {
        lemma_broadway_bound(cards.drop_last());
    }
}

proof fn lemma_present_bound(cards: Seq<u8>, n: int)
    ensures
        0 <= ranks_present(cards, n) <= if n > 0 { n } else { 0 },
    decreases n,
{
    if n > 0 {
        lemma_present_bound(cards, n - 1);
    }
}

/// The numerators of the texture block for `private_cards` on `board` on
/// `street`, when the best hand the seven cards make has category
/// `hand_category` (from high card up).
pub fn texture_feature_counts(private_cards: [u8; 2], board: &[u8], street: Street, hand_category: usize) -> (features: Vec<u8>)
    requires
        private_cards[0] < 52,
        private_cards[1] < 52,
        cards_valid(board@),
        board@.len() <= 5,
        board@.len() > 0 ==> hand_category <= 8,
    ensures
        features@.len() == TEXTURE_FEATURE_COUNT,
        forall|i: int|
            0 <= i < TEXTURE_FEATURE_COUNT ==> #[trigger] features@[i] as int == texture_value(
                seq![private_cards[0], private_cards[1]],
                board@,
                street,
                hand_category as int,
                i,
            ),
{
    let ghost private = seq![private_cards[0], private_cards[1]];
    let mut out: Vec<u8> = Vec::new();
    if board.len() == 0 {
        let pair = flag_u8(private_cards[0] / 4 == private_cards[1] / 4);
        let mut k: usize = 0;
        while k < TEXTURE_FEATURE_COUNT
            invariant
                k <= TEXTURE_FEATURE_COUNT,
                out@.len() == k,
                board@.len() == 0,
                private == seq![private_cards[0], private_cards[1]],
                pair == flag(private[0] / 4 == private[1] / 4),
                forall|j: int| 0 <= j < k ==> #[trigger] out@[j] as int == texture_value(private, board@, street, hand_category as int, j),
            decreases TEXTURE_FEATURE_COUNT - k,
        {
            out.push(if k == 30 { pair } else { 0 });
            k += 1;
        }
        return out;
    }
    let t = summarize(private_cards, board, street);
    let mut k: usize = 0;
    while k < TEXTURE_FEATURE_COUNT
        invariant
            k <= TEXTURE_FEATURE_COUNT,
            out@.len() == k,
            board@.len() > 0,
            private == seq![private_cards[0], private_cards[1]],
            hand_category <= 8,
            summary_matches(t, private, board@, street),
            t.board_max_rank <= 7,
            t.board_max_suit <= 7,
            t.full_max_rank <= 7,
            t.full_max_suit <= 7,
            t.density <= 5,
            t.broadway <= 5,
            t.present <= 13,
            forall|j: int| 0 <= j < k ==> #[trigger] out@[j] as int == texture_value(private, board@, street, hand_category as int, j),
        decreases TEXTURE_FEATURE_COUNT - k,
    {
        let v = slot(&t, hand_category, k, Ghost(private), Ghost(board@), Ghost(street));
        out.push(v);
        k += 1;
    }
    out
}

proof fn lemma_same_ranks(a: Seq<u8>, b: Seq<u8>)
    requires
        a.len() == b.len(),
        forall|i: int| 0 <= i < a.len() ==> #[trigger] a[i] / 4 == b[i] / 4,
    ensures
        forall|r: int| #[trigger] count_rank(a, r) == count_rank(b, r),
        ranks_mask(a) == ranks_mask(b),
        highest_rank(a) == highest_rank(b),
        a.len() > 0 ==> lowest_rank(a) == lowest_rank(b),
        count_broadway(a) == count_broadway(b),
    decreases a.len(),
{
    if a.len() > 0 {
        let a0 = a.drop_last();
        let b0 = b.drop_last();
        assert forall|i: int| 0 <= i < a0.len() implies #[trigger] a0[i] / 4 == b0[i] / 4 by {
            assert(a0[i] == a[i] && b0[i] == b[i]);
        }
        lemma_same_ranks(a0, b0);
        assert(a.last() / 4 == b.last() / 4) by {
            assert(a.last() == a[a.len() - 1] && b.last() == b[b.len() - 1]);
        }
        assert forall|r: int| #[trigger] count_rank(a, r) == count_rank(b, r) by {
            assert(count_rank(a0, r) == count_rank(b0, r));
        }
        if a.len() > 1 {
        } else {
            assert(a[0] / 4 == b[0] / 4);
        }
    }
}

proof fn lemma_ranks_derived(a: Seq<u8>, b: Seq<u8>, n: int)
    requires
        forall|r: int| #[trigger] count_rank(a, r) == count_rank(b, r),
    ensures
        max_rank_below(a, n) == max_rank_below(b, n),
        forall|k: int| #[trigger] ranks_with_count(a, k, n) == ranks_with_count(b, k, n),
        ranks_present(a, n) == ranks_present(b, n),
    decreases n,
{
    if n > 0 {
        lemma_ranks_derived(a, b, n - 1);
        assert(count_rank(a, n - 1) == count_rank(b, n - 1));
        assert forall|k: int| #[trigger] ranks_with_count(a, k, n) == ranks_with_count(b, k, n) by {
            assert(ranks_with_count(a, k, n - 1) == ranks_with_count(b, k, n - 1));
        }
    }
}

proof fn lemma_relabel_suit_count(cards: Seq<u8>, perm: [u8; 4], s: int)
    requires
        is_renaming(perm),
        0 <= s < 4,
        forall|i: int| 0 <= i < cards.len() ==> #[trigger] cards[i] < 52,
    ensures
        count_suit(relabel_cards(cards, perm), perm[s] as int) == count_suit(cards, s),
        count_suit(cards, s) >= 0,
    decreases cards.len(),
{
    if cards.len() > 0 {
        let c0 = cards.drop_last();
        assert forall|i: int| 0 <= i < c0.len() implies #[trigger] c0[i] < 52 by {
            assert(c0[i] == cards[i]);
        }
        lemma_relabel_suit_count(c0, perm, s);
        assert(relabel_cards(cards, perm).drop_last() =~= relabel_cards(c0, perm));
        let c = cards.last();
        assert(c == cards[cards.len() - 1]);
        lemma_relabel_parts(c as int, perm);
        let r = relabel(c as int, perm);
        assert(0 <= c % 4 < 4);
        assert(0 <= r < 52);
        assert(relabel_cards(cards, perm).last() == r as u8);
        if c % 4 == s {
        } else {
            assert(perm[(c % 4) as int] != perm[s]);
        }
    }
}

proof fn lemma_max_suit_bounds(cards: Seq<u8>, n: int)
    requires
        0 <= n,
        forall|s: int| #[trigger] count_suit(cards, s) >= 0,
    ensures
        forall|s: int| 0 <= s < n ==> #[trigger] count_suit(cards, s) <= max_suit_below(cards, n),
        n > 0 ==> exists|s: int| 0 <= s < n && #[trigger] count_suit(cards, s) == max_suit_below(cards, n),
        max_suit_below(cards, n) >= 0,
    decreases n,
{
    if n > 0 {
        lemma_max_suit_bounds(cards, n - 1);
        if n - 1 > 0 {
            let w = choose|s: int| 0 <= s < n - 1 && #[trigger] count_suit(cards, s) == max_suit_below(cards, n - 1);
            if count_suit(cards, n - 1) > max_suit_below(cards, n - 1) {
                assert(count_suit(cards, n - 1) == max_suit_below(cards, n));
            } else {
                assert(count_suit(cards, w) == max_suit_below(cards, n));
            }
        } else {
            assert(count_suit(cards, 0) == max_suit_below(cards, 1));
        }
    }
}

proof fn lemma_relabel_max_suit(cards: Seq<u8>, perm: [u8; 4])
    requires
        is_renaming(perm),
        forall|i: int| 0 <= i < cards.len() ==> #[trigger] cards[i] < 52,
    ensures
        max_suit_count(relabel_cards(cards, perm)) == max_suit_count(cards),
{
    let moved = relabel_cards(cards, perm);
    assert forall|s: int| 0 <= s < 4 implies #[trigger] count_suit(moved, perm[s] as int) == count_suit(cards, s) by {
        lemma_relabel_suit_count(cards, perm, s);
    }
    assert forall|s: int| #[trigger] count_suit(cards, s) >= 0 by {
        lemma_count_suit_bound(cards, s);
    }
    assert forall|s: int| #[trigger] count_suit(moved, s) >= 0 by {
        lemma_count_suit_bound(moved, s);
    }
    lemma_max_suit_bounds(cards, 4);
    lemma_max_suit_bounds(moved, 4);
    let m = max_suit_below(cards, 4);
    let m2 = max_suit_below(moved, 4);
    let s1 = choose|s: int| 0 <= s < 4 && #[trigger] count_suit(cards, s) == m;
    assert(count_suit(moved, perm[s1] as int) == m);
    assert(m <= m2);
    let t0 = choose|t: int| 0 <= t < 4 && #[trigger] count_suit(moved, t) == m2;
    assert(exists|s: int| 0 <= s < 4 && perm[s] == t0) by {
        assert(perm[0] != perm[1] && perm[0] != perm[2] && perm[0] != perm[3]);
        assert(perm[1] != perm[2] && perm[1] != perm[3] && perm[2] != perm[3]);
        assert(perm[0] < 4 && perm[1] < 4 && perm[2] < 4 && perm[3] < 4);
        if perm[0] as int == t0 {
        } else if perm[1] as int == t0 {
        } else if perm[2] as int == t0 {
        } else {
            assert(perm[3] as int == t0);
        }
    }
    let s0 = choose|s: int| 0 <= s < 4 && perm[s] == t0;
    assert(count_suit(cards, s0) == m2);
    assert(m2 <= m);
}

/// Renaming the suits of every card leaves the texture block unchanged: it
/// reads ranks, and suit counts only through their largest value.
pub proof fn law_texture_ignores_suit_names(
    private: Seq<u8>,
    board: Seq<u8>,
    street: Street,
    category: int,
    perm: [u8; 4],
    i: int,
)
    requires
        is_renaming(perm),
        private.len() == 2,
        cards_valid(private),
        cards_valid(board),
    ensures
        texture_value(relabel_cards(private, perm), relabel_cards(board, perm), street, category, i) == texture_value(
            private,
            board,
            street,
            category,
            i,
        ),
{
    let p2 = relabel_cards(private, perm);
    let b2 = relabel_cards(board, perm);
    let full = board + private;
    let full2 = b2 + p2;
    assert(full2 =~= relabel_cards(full, perm));
    assert forall|k: int| 0 <= k < full.len() implies #[trigger] full[k] < 52 by {
        if k < board.len() {
            assert(full[k] == board[k]);
        } else {
            assert(full[k] == private[k - board.len()]);
        }
    }
    assert forall|c: Seq<u8>| cards_valid(c) implies relabel_cards(c, perm).len() == c.len() && forall|k: int|
        0 <= k < c.len() ==> #[trigger] relabel_cards(c, perm)[k] / 4 == c[k] / 4 by {
        assert forall|k: int| 0 <= k < c.len() implies #[trigger] relabel_cards(c, perm)[k] / 4 == c[k] / 4 by {
            lemma_relabel_parts(c[k] as int, perm);
            assert(c[k] < 52);
            assert(0 <= c[k] % 4 < 4);
        }
    }
    lemma_same_ranks(b2, board);
    lemma_same_ranks(full2, full);
    lemma_ranks_derived(b2, board, 13);
    lemma_ranks_derived(full2, full, 13);
    lemma_relabel_max_suit(board, perm);
    lemma_relabel_max_suit(full, perm);
    assert(p2[0] / 4 == private[0] / 4);
    assert(p2[1] / 4 == private[1] / 4);
    assert(count_rank(b2, (p2[0] / 4) as int) == count_rank(board, (private[0] / 4) as int));
    assert(count_rank(b2, (p2[1] / 4) as int) == count_rank(board, (private[1] / 4) as int));
}

proof fn lemma_suits_derived(a: Seq<u8>, b: Seq<u8>, n: int)
    requires
        forall|s: int| #[trigger] count_suit(a, s) == count_suit(b, s),
    ensures
        max_suit_below(a, n) == max_suit_below(b, n),
    decreases n,
{
    if n > 0 {
        lemma_suits_derived(a, b, n - 1);
        assert(count_suit(a, n - 1) == count_suit(b, n - 1));
    }
}

/// The order of the two private cards does not matter: swapping them
/// leaves every slot of the texture block unchanged.
pub proof fn law_texture_ignores_private_card_order(private: Seq<u8>, board: Seq<u8>, street: Street, category: int, i: int)
    requires
        private.len() == 2,
    ensures
        texture_value(seq![private[1], private[0]], board, street, category, i) == texture_value(
            private,
            board,
            street,
            category,
            i,
        ),
{
    let swapped = seq![private[1], private[0]];
    let full = board + private;
    let full2 = board + swapped;
    let p0 = private[0];
    let p1 = private[1];
    assert(full.drop_last() =~= board.push(p0));
    assert(full2.drop_last() =~= board.push(p1));
    assert(board.push(p0).drop_last() =~= board);
    assert(board.push(p1).drop_last() =~= board);
    assert(full.last() == p1 && full2.last() == p0);
    assert(board.push(p0).last() == p0 && board.push(p1).last() == p1);
    assert forall|r: int| #[trigger] count_rank(full, r) == count_rank(full2, r) by {
        assert(count_rank(board.push(p0), r) == count_rank(board, r) + if p0 / 4 == r { 1int } else { 0int });
        assert(count_rank(board.push(p1), r) == count_rank(board, r) + if p1 / 4 == r { 1int } else { 0int });
    }
    assert forall|t: int| #[trigger] count_suit(full, t) == count_suit(full2, t) by {
        assert(count_suit(board.push(p0), t) == count_suit(board, t) + if p0 % 4 == t { 1int } else { 0int });
        assert(count_suit(board.push(p1), t) == count_suit(board, t) + if p1 % 4 == t { 1int } else { 0int });
    }
    let m = ranks_mask(board);
    let a = 1u16 << ((p0 / 4) as u16);
    let b = 1u16 << ((p1 / 4) as u16);
    assert((m | a) | b == (m | b) | a) by (bit_vector);
    assert(ranks_mask(board.push(p0)) == m | a);
    assert(ranks_mask(board.push(p1)) == m | b);
    assert(ranks_mask(full) == (m | a) | b);
    assert(ranks_mask(full2) == (m | b) | a);
    lemma_ranks_derived(full, full2, 13);
    lemma_suits_derived(full, full2, 4);
}

/// The lowest rank of a non-empty list of cards is the rank of one of
/// them, and no card is of a lower rank; the highest likewise.
proof fn lemma_rank_extremes(cards: Seq<u8>)
    requires
        cards.len() > 0,
    ensures
        exists|k: int| 0 <= k < cards.len() && #[trigger] cards[k] / 4 == lowest_rank(cards),
        forall|k: int| 0 <= k < cards.len() ==> lowest_rank(cards) <= #[trigger] cards[k] / 4,
        exists|k: int| 0 <= k < cards.len() && #[trigger] cards[k] / 4 == highest_rank(cards),
        forall|k: int| 0 <= k < cards.len() ==> #[trigger] cards[k] / 4 <= highest_rank(cards),
    decreases cards.len(),
{
    let last = cards.len() - 1;
    assert(cards.last() == cards[last]);
    if cards.len() == 1 {
        assert(cards.drop_last().len() == 0);
        assert(highest_rank(cards.drop_last()) == 0);
        assert(cards[0] / 4 == lowest_rank(cards));
        assert(cards[0] / 4 == highest_rank(cards));
    } else {
        let rest = cards.drop_last();
        lemma_rank_extremes(rest);
        assert forall|k: int| 0 <= k < rest.len() implies #[trigger] rest[k] == cards[k] by {}
        let lo = choose|k: int| 0 <= k < rest.len() && #[trigger] rest[k] / 4 == lowest_rank(rest);
        let hi = choose|k: int| 0 <= k < rest.len() && #[trigger] rest[k] / 4 == highest_rank(rest);
        assert(rest[lo] == cards[lo] && rest[hi] == cards[hi]);
        assert forall|k: int| 0 <= k < cards.len() implies lowest_rank(cards) <= #[trigger] cards[k] / 4
            && cards[k] / 4 <= highest_rank(cards) by {
            if k < last {
                assert(rest[k] == cards[k]);
            }
        }
    }
}

/// Whether `card` has the lowest rank of the board: some board card has its
/// rank and none has a lower one.
pub open spec fn holds_lowest_board_rank(card: u8, board: Seq<u8>) -> bool {
    &&& exists|k: int| 0 <= k < board.len() && #[trigger] board[k] / 4 == card / 4
    &&& forall|k: int| 0 <= k < board.len() ==> card / 4 <= #[trigger] board[k] / 4
}

/// Whether two board cards differ in rank.
pub open spec fn board_ranks_differ(board: Seq<u8>) -> bool {
    exists|a: int, b: int| #![trigger board[a], board[b]] 0 <= a < board.len() && 0 <= b < board.len() && board[a] / 4 != board[b] / 4
}

/// Slot 34 of the texture block, bottom pair, is set exactly when the board
/// has cards of different ranks and either private card, whichever it is,
/// has the board's lowest rank.
pub proof fn law_bottom_pair_flag(private: Seq<u8>, board: Seq<u8>, street: Street, category: int)
    requires
        private.len() == 2,
        board.len() > 0,
    ensures
        texture_value(private, board, street, category, 34) == (if board_ranks_differ(board) && (holds_lowest_board_rank(
            private[0],
            board,
        ) || holds_lowest_board_rank(private[1], board)) {
            1int
        } else {
            0int
        }),
{
    lemma_rank_extremes(board);
    let low = lowest_rank(board);
    let high = highest_rank(board);
    let klo = choose|k: int| 0 <= k < board.len() && #[trigger] board[k] / 4 == low;
    let khi = choose|k: int| 0 <= k < board.len() && #[trigger] board[k] / 4 == high;
    if low != high {
        assert(board[klo] / 4 != board[khi] / 4);
        assert(board_ranks_differ(board));
    }
    if board_ranks_differ(board) {
        let (a, b) = choose|a: int, b: int| #![trigger board[a], board[b]] 0 <= a < board.len() && 0 <= b < board.len() && board[a] / 4 != board[b] / 4;
        assert(low <= board[a] / 4 <= high && low <= board[b] / 4 <= high);
    }
    assert forall|h: int| 0 <= h < 2 implies (holds_lowest_board_rank(#[trigger] private[h], board) <==> (private[h] / 4) as int == low) by {
        if holds_lowest_board_rank(private[h], board) {
            let k = choose|k: int| 0 <= k < board.len() && #[trigger] board[k] / 4 == private[h] / 4;
            assert(private[h] / 4 <= board[klo] / 4);
            assert(low <= board[k] / 4);
        }
        if (private[h] / 4) as int == low {
            assert(board[klo] / 4 == private[h] / 4);
        }
    }
    assert(holds_lowest_board_rank(private[0], board) <==> (private[0] / 4) as int == low);
    assert(holds_lowest_board_rank(private[1], board) <==> (private[1] / 4) as int == low);
}

} // verus!
