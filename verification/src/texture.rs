//! Board texture: rank masks, straight windows, and the canonical renaming
//! of suits that makes feature encodings suit-invariant.
use vstd::prelude::*;
use crate::flop::{relabel, lemma_relabel_parts};

verus! {

/// Whether rank `r` is set in a thirteen-bit rank mask.
pub open spec fn rank_bit(mask: u16, r: u16) -> bool {
    (mask >> r) & 1u16 == 1u16
}

/// Whether some card of `board` has rank `rank`.
pub fn matches_rank(board: &[u8], rank: u8) -> (b: bool)
    ensures
        b == exists|i: int| 0 <= i < board@.len() && (#[trigger] board@[i]) / 4 == rank,
{
    let mut i: usize = 0;
    while i < board.len()
        invariant
            i <= board@.len(),
            forall|k: int| 0 <= k < i ==> (#[trigger] board@[k]) / 4 != rank,
        decreases board.len() - i,
    {
        if board[i] / 4 == rank {
            return true;
        }
        i += 1;
    }
    false
}

/// Five consecutive ranks starting at `low` are all set.
pub open spec fn window_full(mask: u16, low: u16) -> bool {
    &&& rank_bit(mask, low)
    &&& rank_bit(mask, (low + 1) as u16)
    &&& rank_bit(mask, (low + 2) as u16)
    &&& rank_bit(mask, (low + 3) as u16)
    &&& rank_bit(mask, (low + 4) as u16)
}

/// The ace-low wheel: ace, deuce, three, four and five are all set.
pub open spec fn wheel_full(mask: u16) -> bool {
    rank_bit(mask, 12) && rank_bit(mask, 0) && rank_bit(mask, 1) && rank_bit(mask, 2) && rank_bit(mask, 3)
}

/// Whether the ranks of `mask` make a straight, the wheel included.
pub open spec fn has_straight(mask: u16) -> bool {
    (exists|low: u16| low <= 8 && #[trigger] window_full(mask, low)) || wheel_full(mask)
}

proof fn lemma_window_bits(mask: u16, low: u16)
    requires
        low <= 8,
    ensures
        ((mask >> low) & 31u16 == 31u16) == window_full(mask, low),
{
    assert(((mask >> low) & 31u16 == 31u16) == (((mask >> low) & 1u16 == 1u16) && ((mask >> ((low + 1) as u16)) & 1u16 == 1u16)
        && ((mask >> ((low + 2) as u16)) & 1u16 == 1u16) && ((mask >> ((low + 3) as u16)) & 1u16 == 1u16)
        && ((mask >> ((low + 4) as u16)) & 1u16 == 1u16))) by (bit_vector)
        requires low <= 8;
}

proof fn lemma_wheel_bits(mask: u16)
    ensures
        (mask & 0x100fu16 == 0x100fu16) == wheel_full(mask),
{
    assert((mask & 0x100fu16 == 0x100fu16) == (((mask >> 12u16) & 1u16 == 1u16) && ((mask >> 0u16) & 1u16 == 1u16)
        && ((mask >> 1u16) & 1u16 == 1u16) && ((mask >> 2u16) & 1u16 == 1u16) && ((mask >> 3u16) & 1u16 == 1u16))) by (bit_vector);
}

/// Whether the rank mask contains five consecutive ranks, or the wheel.
pub fn rank_mask_has_straight(mask: u16) -> (b: bool)
    ensures
        b == has_straight(mask),
{
    let mut low: u16 = 0;
    while low <= 8
        invariant
            low <= 9,
            forall|l: u16| l < low ==> !#[trigger] window_full(mask, l),
        decreases 9 - low,
    {
        proof {
            lemma_window_bits(mask, low);
        }
        if (mask >> low) & 0b1_1111 == 0b1_1111 {
            return true;
        }
        low += 1;
    }
    proof {
        lemma_wheel_bits(mask);
    }
    mask & 0x100f == 0x100f
}

/// One for a set bit, zero otherwise.
pub open spec fn bit_count(b: bool) -> int {
    if b { 1 } else { 0 }
}

/// How many of the five ranks starting at `low` are set.
pub open spec fn window_count(mask: u16, low: u16) -> int {
    bit_count(rank_bit(mask, low)) + bit_count(rank_bit(mask, (low + 1) as u16)) + bit_count(rank_bit(mask, (low + 2) as u16))
        + bit_count(rank_bit(mask, (low + 3) as u16)) + bit_count(rank_bit(mask, (low + 4) as u16))
}

/// How many of the wheel's five ranks are set.
pub open spec fn wheel_count(mask: u16) -> int {
    bit_count(rank_bit(mask, 12)) + bit_count(rank_bit(mask, 0)) + bit_count(rank_bit(mask, 1)) + bit_count(rank_bit(mask, 2))
        + bit_count(rank_bit(mask, 3))
}

/// The largest window count over the windows starting below `n`.
pub open spec fn max_window_count(mask: u16, n: u16) -> int
    decreases n,
{
    if n == 0 {
        0
    } else {
        let rest = max_window_count(mask, (n - 1) as u16);
        let here = window_count(mask, (n - 1) as u16);
        if here > rest { here } else { rest }
    }
}

/// The largest number of set ranks in any straight window, the wheel included.
pub open spec fn straight_density(mask: u16) -> int {
    let regular = max_window_count(mask, 9);
    if wheel_count(mask) > regular { wheel_count(mask) } else { regular }
}

proof fn lemma_max_window_count(mask: u16, n: u16)
    requires
        n <= 9,
    ensures
        forall|low: u16| low < n ==> max_window_count(mask, n) >= #[trigger] window_count(mask, low),
        n > 0 ==> exists|low: u16| low < n && max_window_count(mask, n) == #[trigger] window_count(mask, low),
        n == 0 ==> max_window_count(mask, n) == 0,
    decreases n,
{
    if n > 0 {
        lemma_max_window_count(mask, (n - 1) as u16);
        if n == 1 {
            assert(window_count(mask, 0) >= 0);
        }
    }
}

/// The straight-window density is the largest number of set ranks in one
/// straight window: at least the count of every five-rank window from
/// deuce-to-six up to ten-to-ace, and of the wheel, and equal to one of
/// them; so it is at most five, and five exactly when the ranks hold a
/// straight.
pub proof fn law_density_is_the_fullest_window(mask: u16)
    ensures
        forall|low: u16| low <= 8 ==> straight_density(mask) >= #[trigger] window_count(mask, low),
        straight_density(mask) >= wheel_count(mask),
        straight_density(mask) == wheel_count(mask) || exists|low: u16|
            low <= 8 && straight_density(mask) == #[trigger] window_count(mask, low),
        straight_density(mask) <= 5,
        has_straight(mask) <==> straight_density(mask) == 5,
{
    lemma_max_window_count(mask, 9);
    assert forall|low: u16| low <= 8 implies straight_density(mask) >= #[trigger] window_count(mask, low) by {
        assert(low < 9);
    }
    assert forall|low: u16| low <= 8 implies window_count(mask, low) <= 5 && (#[trigger] window_full(mask, low) <==> window_count(mask, low) == 5) by {}
    if straight_density(mask) == 5 && !wheel_full(mask) {
        let low = choose|low: u16| low < 9 && max_window_count(mask, 9) == #[trigger] window_count(mask, low);
        assert(window_full(mask, low));
    }
    if has_straight(mask) && !wheel_full(mask) {
        let low = choose|low: u16| low <= 8 && #[trigger] window_full(mask, low);
        assert(window_count(mask, low) == 5);
    }
}

fn rank_set(mask: u16, r: u16) -> (b: bool)
    requires
        r < 16,
    ensures
        b == rank_bit(mask, r),
{
    (mask >> r) & 1 == 1
}

fn count_bit(b: bool) -> (n: u32)
    ensures
        n == bit_count(b),
{
    if b { 1 } else { 0 }
}

/// The largest number of ranks of `mask` inside one straight window.
pub fn straight_window_density(mask: u16) -> (d: u32)
    ensures
        d == straight_density(mask),
        d <= 5,
{
    let mut regular: u32 = 0;
    let mut low: u16 = 0;
    while low <= 8
        invariant
            low <= 9,
            regular == max_window_count(mask, low),
            regular <= 5,
        decreases 9 - low,
    {
        let here = count_bit(rank_set(mask, low)) + count_bit(rank_set(mask, low + 1)) + count_bit(rank_set(mask, low + 2))
            + count_bit(rank_set(mask, low + 3)) + count_bit(rank_set(mask, low + 4));
        if here > regular {
            regular = here;
        }
        low += 1;
    }
    let wheel = count_bit(rank_set(mask, 12)) + count_bit(rank_set(mask, 0)) + count_bit(rank_set(mask, 1))
        + count_bit(rank_set(mask, 2)) + count_bit(rank_set(mask, 3));
    if wheel > regular {
        wheel
    } else {
        regular
    }
}

/// The rank mask of the cards of suit `s` among the first `n` of `cards`.
pub open spec fn suit_mask(cards: Seq<u8>, s: int, n: int) -> u16
    decreases n,
{
    if n <= 0 {
        0
    } else if cards[n - 1] % 4 == s {
        suit_mask(cards, s, n - 1) | (1u16 << ((cards[n - 1] / 4) as u16))
    } else {
        suit_mask(cards, s, n - 1)
    }
}

/// Suit `t` is placed before suit `s`: more private ranks, then more board
/// ranks (comparing rank masks as numbers), then the lower suit first.
pub open spec fn suit_before(private: Seq<u8>, board: Seq<u8>, t: int, s: int) -> bool {
    let pt = suit_mask(private, t, private.len() as int);
    let ps = suit_mask(private, s, private.len() as int);
    let bt = suit_mask(board, t, board.len() as int);
    let bs = suit_mask(board, s, board.len() as int);
    pt > ps || (pt == ps && (bt > bs || (bt == bs && t < s)))
}

/// The canonical position of suit `s`: how many suits are placed before it.
pub open spec fn canonical_suit(private: Seq<u8>, board: Seq<u8>, s: int) -> int {
    bit_count(suit_before(private, board, 0, s)) + bit_count(suit_before(private, board, 1, s))
        + bit_count(suit_before(private, board, 2, s)) + bit_count(suit_before(private, board, 3, s))
}

fn suit_masks(cards: &[u8]) -> (masks: [u16; 4])
    requires
        forall|i: int| 0 <= i < cards@.len() ==> #[trigger] cards@[i] < 52,
    ensures
        forall|s: int| 0 <= s < 4 ==> #[trigger] masks[s] == suit_mask(cards@, s, cards@.len() as int),
{
    let mut masks = [0u16; 4];
    let mut i: usize = 0;
    while i < cards.len()
        invariant
            i <= cards@.len(),
            forall|k: int| 0 <= k < cards@.len() ==> #[trigger] cards@[k] < 52,
            forall|s: int| 0 <= s < 4 ==> #[trigger] masks[s] == suit_mask(cards@, s, i as int),
        decreases cards.len() - i,
    {
        let card = cards[i];
        let suit = (card % 4) as usize;
        masks[suit] = masks[suit] | (1u16 << (card / 4) as u16);
        i += 1;
    }
    masks
}

fn placed_before(pm: &[u16; 4], bm: &[u16; 4], t: usize, s: usize) -> (b: bool)
    requires
        t < 4,
        s < 4,
    ensures
        b == (pm[t as int] > pm[s as int] || (pm[t as int] == pm[s as int] && (bm[t as int] > bm[s as int] || (bm[t as int] == bm[s as int] && t < s)))),
{
    pm[t] > pm[s] || (pm[t] == pm[s] && (bm[t] > bm[s] || (bm[t] == bm[s] && t < s)))
}

/// The renaming of suits that orders them by their private rank masks, then
/// their board rank masks (both descending), then by suit: `map[s]` is the
/// canonical name of suit `s`.
pub fn canonical_suit_map(private_cards: [u8; 2], board: &[u8]) -> (map: [usize; 4])
    requires
        private_cards[0] < 52,
        private_cards[1] < 52,
        forall|i: int| 0 <= i < board@.len() ==> #[trigger] board@[i] < 52,
    ensures
        forall|s: int| 0 <= s < 4 ==> #[trigger] map[s] == canonical_suit(private_cards@, board@, s),
{
    let pm = suit_masks(private_cards.as_slice());
    let bm = suit_masks(board);
    let mut map = [0usize; 4];
    let mut s: usize = 0;
    while s < 4
        invariant
            s <= 4,
            forall|u: int| 0 <= u < 4 ==> #[trigger] pm[u] == suit_mask(private_cards@, u, 2),
            forall|u: int| 0 <= u < 4 ==> #[trigger] bm[u] == suit_mask(board@, u, board@.len() as int),
            forall|u: int| 0 <= u < s ==> #[trigger] map[u] == canonical_suit(private_cards@, board@, u),
        decreases 4 - s,
    {
        let mut count: usize = 0;
        let mut t: usize = 0;
        while t < 4
            invariant
                t <= 4,
                s < 4,
                forall|u: int| 0 <= u < 4 ==> #[trigger] pm[u] == suit_mask(private_cards@, u, 2),
                forall|u: int| 0 <= u < 4 ==> #[trigger] bm[u] == suit_mask(board@, u, board@.len() as int),
                count == (if t > 0 { bit_count(suit_before(private_cards@, board@, 0, s as int)) } else { 0 })
                    + (if t > 1 { bit_count(suit_before(private_cards@, board@, 1, s as int)) } else { 0 })
                    + (if t > 2 { bit_count(suit_before(private_cards@, board@, 2, s as int)) } else { 0 })
                    + (if t > 3 { bit_count(suit_before(private_cards@, board@, 3, s as int)) } else { 0 }),
            decreases 4 - t,
        {
            if placed_before(&pm, &bm, t, s) {
                count += 1;
            }
            t += 1;
        }
        map[s] = count;
        s += 1;
    }
    map
}

/// The canonical name of a card: its rank, with its suit renamed by `suit_map`.
pub fn canonical_card(card: u8, suit_map: &[usize; 4]) -> (c: usize)
    requires
        suit_map[(card % 4) as int] < 4,
    ensures
        c == (card / 4) as int * 4 + suit_map[(card % 4) as int],
{
    (card / 4) as usize * 4 + suit_map[(card % 4) as usize]
}

/// The canonical renaming is a renaming: it sends the four suits to four
/// different names in `0..4`.
pub proof fn law_canonical_suit_map_is_a_renaming(private: Seq<u8>, board: Seq<u8>, s: int, t: int)
    requires
        0 <= s < 4,
        0 <= t < 4,
        s != t,
    ensures
        0 <= canonical_suit(private, board, s) < 4,
        canonical_suit(private, board, s) != canonical_suit(private, board, t),
{
    // Placement is a strict total order on suits, so the suit placed earlier
    // has strictly fewer suits before it.
    if suit_before(private, board, t, s) {
        lemma_fewer_before(private, board, t, s);
    } else {
        lemma_fewer_before(private, board, s, t);
    }
}

proof fn lemma_fewer_before(private: Seq<u8>, board: Seq<u8>, t: int, s: int)
    requires
        0 <= s < 4,
        0 <= t < 4,
        s != t,
        suit_before(private, board, t, s) || !suit_before(private, board, s, t),
    ensures
        canonical_suit(private, board, t) < canonical_suit(private, board, s),
{
    assert(suit_before(private, board, t, s));
    assert(!suit_before(private, board, t, t));
    assert(!suit_before(private, board, s, t));
}

/// The cards with their suits renamed by `perm`.
pub open spec fn relabel_cards(cards: Seq<u8>, perm: [u8; 4]) -> Seq<u8> {
    cards.map_values(|c: u8| relabel(c as int, perm) as u8)
}

/// The canonical name of `card` given the private cards and the board.
pub open spec fn canonical_card_name(private: Seq<u8>, board: Seq<u8>, card: int) -> int {
    (card / 4) * 4 + canonical_suit(private, board, card % 4)
}

/// No two suits have both the same private and the same board rank masks.
pub open spec fn suit_signatures_distinct(private: Seq<u8>, board: Seq<u8>) -> bool {
    forall|t: int, s: int|
        0 <= t < 4 && 0 <= s < 4 && t != s ==> suit_mask(private, t, private.len() as int) != suit_mask(private, s, private.len() as int)
            || suit_mask(board, t, board.len() as int) != suit_mask(board, s, board.len() as int)
}

/// A renaming of the four suits.
pub open spec fn is_renaming(perm: [u8; 4]) -> bool {
    &&& forall|j: int| 0 <= j < 4 ==> perm[j] < 4
    &&& forall|i: int, j: int| 0 <= i < j < 4 ==> perm[i] != perm[j]
}

proof fn lemma_suit_mask_relabel(cards: Seq<u8>, perm: [u8; 4], s: int, n: int)
    requires
        is_renaming(perm),
        0 <= s < 4,
        0 <= n <= cards.len(),
        forall|i: int| 0 <= i < cards.len() ==> cards[i] < 52,
    ensures
        suit_mask(relabel_cards(cards, perm), perm[s] as int, n) == suit_mask(cards, s, n),
    decreases n,
{
    if n > 0 {
        lemma_suit_mask_relabel(cards, perm, s, n - 1);
        let c = cards[n - 1];
        lemma_relabel_parts(c as int, perm);
        let r = relabel(c as int, perm);
        assert(0 <= c % 4 < 4);
        assert(0 <= r < 52);
        assert(relabel_cards(cards, perm)[n - 1] == r as u8);
        assert((r as u8) % 4 == perm[(c % 4) as int]);
        assert((r as u8) / 4 == c / 4);
        if c % 4 == s {
            assert(relabel_cards(cards, perm)[n - 1] % 4 == perm[s]);
        } else {
            assert(perm[(c % 4) as int] != perm[s]);
        }
    }
}

/// Renaming the suits of every card renames the canonical suit map along:
/// when no two suits share both their private and their board rank masks,
/// each card and its renamed copy get the same canonical name, so encodings
/// built from canonical names do not depend on the suits' names.
pub proof fn law_canonical_names_ignore_suit_names(private: Seq<u8>, board: Seq<u8>, perm: [u8; 4], card: int)
    requires
        is_renaming(perm),
        forall|i: int| 0 <= i < private.len() ==> private[i] < 52,
        forall|i: int| 0 <= i < board.len() ==> board[i] < 52,
        suit_signatures_distinct(private, board),
        0 <= card < 52,
    ensures
        canonical_card_name(relabel_cards(private, perm), relabel_cards(board, perm), relabel(card, perm))
            == canonical_card_name(private, board, card),
{
    let p2 = relabel_cards(private, perm);
    let b2 = relabel_cards(board, perm);
    assert forall|s: int| 0 <= s < 4 implies suit_mask(p2, perm[s] as int, p2.len() as int) == suit_mask(private, s, private.len() as int)
        && suit_mask(b2, perm[s] as int, b2.len() as int) == suit_mask(board, s, board.len() as int) by {
        lemma_suit_mask_relabel(private, perm, s, private.len() as int);
        lemma_suit_mask_relabel(board, perm, s, board.len() as int);
    }
    assert forall|t: int, s: int| 0 <= t < 4 && 0 <= s < 4 implies suit_before(p2, b2, perm[t] as int, perm[s] as int)
        == suit_before(private, board, t, s) by {
        if t == s {
        } else {
            assert(perm[t] != perm[s]) by {
                if t < s {
                } else {
                }
            }
        }
    }
    lemma_relabel_parts(card, perm);
    let s = card % 4;
    assert(0 <= s < 4);
    // Summing over the renamed suits is summing over all suits.
    let f = |u: int| bit_count(suit_before(p2, b2, u, perm[s] as int));
    assert(canonical_suit(p2, b2, perm[s] as int) == f(0) + f(1) + f(2) + f(3));
    assert(f(perm[0] as int) + f(perm[1] as int) + f(perm[2] as int) + f(perm[3] as int) == f(0) + f(1) + f(2) + f(3)) by {
        assert(perm[0] != perm[1] && perm[0] != perm[2] && perm[0] != perm[3]);
        assert(perm[1] != perm[2] && perm[1] != perm[3] && perm[2] != perm[3]);
    }
    assert(f(perm[0] as int) == bit_count(suit_before(private, board, 0, s)));
    assert(f(perm[1] as int) == bit_count(suit_before(private, board, 1, s)));
    assert(f(perm[2] as int) == bit_count(suit_before(private, board, 2, s)));
    assert(f(perm[3] as int) == bit_count(suit_before(private, board, 3, s)));
}

} // verus!
