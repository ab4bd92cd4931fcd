//! Cards are `0..52`, rank `card / 4` (deuce = 0, ace = 12) and suit
//! `card % 4`. A private combo is an unordered pair of distinct cards.
use vstd::prelude::*;

verus! {

/// Number of cards in the deck.
pub const DECK_SIZE: u8 = 52;

/// Number of unordered private two-card combos, `C(52, 2)`.
pub const COMBO_COUNT: usize = 1326;

/// The rank of a card: deuce 0 up to ace 12.
pub open spec fn rank_of(card: int) -> int {
    card / 4
}

/// The suit of a card, `0..4`.
pub open spec fn suit_of(card: int) -> int {
    card % 4
}

/// Index of the unordered pair `{high, low}` with `low < high < 52`.
pub open spec fn combo_index(high: int, low: int) -> int {
    high * (high - 1) / 2 + low
}

/// An unordered pair of distinct cards, stored with the higher card first.
#[derive(Clone, Copy, Debug, PartialEq, Eq)]
pub struct Combo {
    pub high: u8,
    pub low: u8,
}

impl Combo {
    /// Two distinct cards of the deck, the higher first.
    pub open spec fn wf(self) -> bool {
        self.low < self.high < 52
    }

    /// The combo of two distinct cards, in either order.
    pub fn new(first: u8, second: u8) -> (c: Combo)
        requires
            first < 52,
            second < 52,
            first != second,
        ensures
            c.wf(),
            c.high == if first > second { first } else { second },
            c.low == if first > second { second } else { first },
    {
        if first > second {
            Combo { high: first, low: second }
        } else {
            Combo { high: second, low: first }
        }
    }

    /// Position of this combo in `all_combos()`.
    pub fn key(&self) -> (k: usize)
        requires
            self.wf(),
        ensures
            k == combo_index(self.high as int, self.low as int),
            k < COMBO_COUNT,
    {
        let h = self.high as usize;
        proof {
            lemma_combo_index_bounds(self.high as int, self.low as int);
        }
        h * (h - 1) / 2 + self.low as usize
    }

    /// The two cards, higher first.
    pub fn cards(&self) -> (cs: [u8; 2])
        ensures
            cs@ == seq![self.high, self.low],
    {
        [self.high, self.low]
    }

    /// Whether the two combos share a card.
    pub fn overlaps(&self, other: Combo) -> (b: bool)
        ensures
            b == (self.high == other.high || self.high == other.low || self.low == other.high
                || self.low == other.low),
    {
        self.high == other.high || self.high == other.low || self.low == other.high
            || self.low == other.low
    }
}

/// Combo indices of one high card are consecutive and below `C(52, 2)`.
pub proof fn lemma_combo_index_bounds(high: int, low: int)
    requires
        0 <= low < high < 52,
    ensures
        0 <= combo_index(high, low) < combo_index(high + 1, 0) <= 1326,
        combo_index(high, low) == combo_index(high, 0) + low,
        combo_index(high + 1, 0) == combo_index(high, 0) + high,
{
    assert(high * (high - 1) / 2 + high == (high + 1) * high / 2) by (nonlinear_arith)
        requires 0 <= high;
    assert(0 <= high * (high - 1)) by (nonlinear_arith) requires 1 <= high;
    assert((high + 1) * high <= 52 * 51) by (nonlinear_arith) requires 0 <= high < 52;
}


/// Every private combo, in increasing order of `key()`.
pub fn all_combos() -> (combos: Vec<Combo>)
    ensures
        combos.len() == COMBO_COUNT,
        forall|i: int|
            0 <= i < COMBO_COUNT ==> (#[trigger] combos[i]).wf() && combo_index(
                combos[i].high as int,
                combos[i].low as int,
            ) == i,
{
    let mut combos: Vec<Combo> = Vec::with_capacity(COMBO_COUNT);
    let mut high: u8 = 1;
    while high < 52
        invariant
            1 <= high <= 52,
            combos.len() == combo_index(high as int, 0),
            forall|i: int|
                0 <= i < combos.len() ==> (#[trigger] combos[i]).wf() && combo_index(
                    combos[i].high as int,
                    combos[i].low as int,
                ) == i,
        decreases 52 - high,
    {
        let mut low: u8 = 0;
        proof {
            lemma_combo_index_bounds(high as int, 0);
        }
        while low < high
            invariant
                1 <= high < 52,
                low <= high,
                combos.len() == combo_index(high as int, low as int),
                combo_index(high as int, low as int) == combo_index(high as int, 0) + low,
                forall|i: int|
                    0 <= i < combos.len() ==> (#[trigger] combos[i]).wf() && combo_index(
                        combos[i].high as int,
                        combos[i].low as int,
                    ) == i,
            decreases high - low,
        {
            combos.push(Combo { high, low });
            low += 1;
            proof {
                assert(combo_index(high as int, low as int) == combo_index(high as int, 0) + low) by {
                    if low < high {
                        lemma_combo_index_bounds(high as int, low as int);
                    } else {
                        lemma_combo_index_bounds(high as int, 0);
                    }
                }
            }
        }
        proof {
            lemma_combo_index_bounds(high as int, 0);
        }
        high += 1;
    }
    combos
}

/// Distinct combos have distinct keys, and every key names a combo.
pub proof fn law_combo_index_is_bijective(h1: int, l1: int, h2: int, l2: int)
    requires
        0 <= l1 < h1 < 52,
        0 <= l2 < h2 < 52,
        combo_index(h1, l1) == combo_index(h2, l2),
    ensures
        h1 == h2 && l1 == l2,
{
    lemma_combo_index_bounds(h1, l1);
    lemma_combo_index_bounds(h2, l2);
    if h1 < h2 {
        lemma_combo_index_monotone(h1 + 1, h2);
    } else if h2 < h1 {
        lemma_combo_index_monotone(h2 + 1, h1);
    }
}

proof fn lemma_combo_index_monotone(a: int, b: int)
    requires
        1 <= a <= b < 52,
    ensures
        combo_index(a, 0) <= combo_index(b, 0),
    decreases b - a,
{
    if a < b {
        lemma_combo_index_monotone(a, b - 1);
        lemma_combo_index_bounds(b - 1, 0);
    }
}


/// The character naming a rank: `2`-`9`, `T`, `J`, `Q`, `K`, `A`.
pub open spec fn rank_char(rank: int) -> char {
    if rank == 0 {
        '2'
    } else if rank == 1 {
        '3'
    } else if rank == 2 {
        '4'
    } else if rank == 3 {
        '5'
    } else if rank == 4 {
        '6'
    } else if rank == 5 {
        '7'
    } else if rank == 6 {
        '8'
    } else if rank == 7 {
        '9'
    } else if rank == 8 {
        'T'
    } else if rank == 9 {
        'J'
    } else if rank == 10 {
        'Q'
    } else if rank == 11 {
        'K'
    } else {
        'A'
    }
}

/// The preflop class label: two rank characters, higher first, followed by
/// `s` (same suit) or `o` (different suits) unless the ranks are equal.
pub open spec fn class_label(high: int, low: int, suited: bool) -> Seq<char> {
    if high == low {
        seq![rank_char(high), rank_char(low)]
    } else {
        seq![rank_char(high), rank_char(low), if suited { 's' } else { 'o' }]
    }
}

/// The class label of a combo, e.g. `AKs`, `T9o` or `22`.
pub open spec fn combo_label(c: Combo) -> Seq<char> {
    class_label(
        rank_of(c.high as int),
        rank_of(c.low as int),
        suit_of(c.high as int) == suit_of(c.low as int),
    )
}

/// `String::push`: appends the character `c` to the end of `s`.
#[verifier::external_body]
pub(crate) fn push_char(s: &mut String, c: char)
    ensures
        final(s)@ == old(s)@.push(c),
{
    s.push(c);
}

/// The character of a rank: `2`..`9`, `T`, `J`, `Q`, `K`, `A`.
pub fn rank_character(rank: u8) -> (c: char)
    requires
        rank < 13,
    ensures
        c == rank_char(rank as int),
{
    if rank == 0 {
        '2'
    } else if rank == 1 {
        '3'
    } else if rank == 2 {
        '4'
    } else if rank == 3 {
        '5'
    } else if rank == 4 {
        '6'
    } else if rank == 5 {
        '7'
    } else if rank == 6 {
        '8'
    } else if rank == 7 {
        '9'
    } else if rank == 8 {
        'T'
    } else if rank == 9 {
        'J'
    } else if rank == 10 {
        'Q'
    } else if rank == 11 {
        'K'
    } else {
        'A'
    }
}

/// The label of the class with the given ranks (`low <= high`).
pub fn class_label_string(high: u8, low: u8, suited: bool) -> (s: String)
    requires
        low <= high < 13,
    ensures
        s@ == class_label(high as int, low as int, suited),
{
    let mut s = String::new();
    push_char(&mut s, rank_character(high));
    push_char(&mut s, rank_character(low));
    if high != low {
        push_char(&mut s, if suited { 's' } else { 'o' });
    }
    s
}

impl Combo {
    /// The preflop class label of this combo, e.g. `AKs`.
    pub fn label(&self) -> (s: String)
        requires
            self.wf(),
        ensures
            s@ == combo_label(*self),
    {
        let high = self.high / 4;
        let low = self.low / 4;
        class_label_string(high, low, self.high % 4 == self.low % 4)
    }
}

} // verus!
