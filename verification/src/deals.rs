//! Deals of two private hands and a five-card board, and the exact or
//! sampled ways the solver completes them.
use vstd::prelude::*;
use crate::cards::Combo;
use crate::flop::{sort3, Triple};
use crate::game::{Street, board_cards};

verus! {

/// Two private hands and the full five-card board (only the prefix that a
/// street has dealt is public).
#[derive(Clone, Copy, Debug, PartialEq, Eq)]
pub struct Deal {
    pub holes: [[u8; 2]; 2],
    pub board: [u8; 5],
}

impl Deal {
    /// The deal with the given private hands and board.
    pub fn from_cards(holes: [[u8; 2]; 2], board: [u8; 5]) -> (d: Deal)
        ensures
            d.holes == holes,
            d.board == board,
    {
        Deal { holes, board }
    }
}

/// All nine cards of a deal: both private hands, then the board.
pub open spec fn deal_cards(d: Deal) -> Seq<u8> {
    seq![
        d.holes[0][0], d.holes[0][1], d.holes[1][0], d.holes[1][1],
        d.board[0], d.board[1], d.board[2], d.board[3], d.board[4],
    ]
}

/// A card is blocked for the river when a player holds it or it is one of
/// the first four board cards.
pub open spec fn river_blocked(d: Deal, card: int) -> bool {
    ||| card == d.holes[0][0]
    ||| card == d.holes[0][1]
    ||| card == d.holes[1][0]
    ||| card == d.holes[1][1]
    ||| card == d.board[0]
    ||| card == d.board[1]
    ||| card == d.board[2]
    ||| card == d.board[3]
}

/// The cards below `n` that are not blocked for the river, ascending.
pub open spec fn rivers_below(d: Deal, n: int) -> Seq<int>
    decreases n,
{
    if n <= 0 {
        Seq::empty()
    } else if river_blocked(d, n - 1) {
        rivers_below(d, n - 1)
    } else {
        rivers_below(d, n - 1).push(n - 1)
    }
}

/// Every river card that the known cards leave open, ascending.
pub open spec fn river_candidates(d: Deal) -> Seq<int> {
    rivers_below(d, 52)
}

fn blocks_river(deal: &Deal, card: u8) -> (b: bool)
    ensures
        b == river_blocked(*deal, card as int),
{
    card == deal.holes[0][0] || card == deal.holes[0][1] || card == deal.holes[1][0]
        || card == deal.holes[1][1] || card == deal.board[0] || card == deal.board[1]
        || card == deal.board[2] || card == deal.board[3]
}

/// One deal per river card left open by both hands and the turn board: each
/// keeps the hands and the first four board cards, in ascending river order.
pub fn exact_river_deals(deal: &Deal) -> (rivers: Vec<Deal>)
    requires
        forall|i: int| 0 <= i < 8 ==> #[trigger] deal_cards(*deal)[i] < 52,
    ensures
        rivers.len() == river_candidates(*deal).len(),
        forall|i: int|
            0 <= i < rivers.len() ==> {
                &&& (#[trigger] rivers[i]).holes == deal.holes
                &&& rivers[i].board[0] == deal.board[0]
                &&& rivers[i].board[1] == deal.board[1]
                &&& rivers[i].board[2] == deal.board[2]
                &&& rivers[i].board[3] == deal.board[3]
                &&& rivers[i].board[4] == river_candidates(*deal)[i]
            },
{
    let mut rivers: Vec<Deal> = Vec::new();
    let mut river: u8 = 0;
    while river < 52
        invariant
            river <= 52,
            rivers.len() == rivers_below(*deal, river as int).len(),
            forall|i: int|
                0 <= i < rivers.len() ==> {
                    &&& (#[trigger] rivers[i]).holes == deal.holes
                    &&& rivers[i].board[0] == deal.board[0]
                    &&& rivers[i].board[1] == deal.board[1]
                    &&& rivers[i].board[2] == deal.board[2]
                    &&& rivers[i].board[3] == deal.board[3]
                    &&& rivers[i].board[4] == rivers_below(*deal, river as int)[i]
                },
        decreases 52 - river,
    {
        if !blocks_river(deal, river) {
            let board = [deal.board[0], deal.board[1], deal.board[2], deal.board[3], river];
            rivers.push(Deal { holes: deal.holes, board });
        }
        river += 1;
    }
    rivers
}

/// The river candidates are exactly the open cards, strictly ascending.
pub proof fn lemma_rivers_below(d: Deal, n: int)
    requires
        0 <= n <= 52,
    ensures
        forall|c: int| rivers_below(d, n).contains(c) <==> 0 <= c < n && !river_blocked(d, c),
        forall|i: int, j: int|
            0 <= i < j < rivers_below(d, n).len() ==> rivers_below(d, n)[i] < rivers_below(d, n)[j],
        forall|i: int| 0 <= i < rivers_below(d, n).len() ==> 0 <= #[trigger] rivers_below(d, n)[i] < n,
    decreases n,
{
    if n > 0 {
        lemma_rivers_below(d, n - 1);
        let s = rivers_below(d, n - 1);
        if !river_blocked(d, n - 1) {
            assert forall|c: int| rivers_below(d, n).contains(c) <==> 0 <= c < n && !river_blocked(d, c) by {
                if c == n - 1 {
                    assert(rivers_below(d, n)[s.len() as int] == c);
                } else if rivers_below(d, n).contains(c) {
                    let k = choose|k: int| 0 <= k < rivers_below(d, n).len() && rivers_below(d, n)[k] == c;
                    assert(s[k] == c);
                } else if 0 <= c < n && !river_blocked(d, c) {
                    let k = choose|k: int| 0 <= k < s.len() && s[k] == c;
                    assert(rivers_below(d, n)[k] == c);
                }
            }
        }
    }
}

/// The public board a player observes on `street`: the dealt prefix, with
/// the unordered flop sorted ascending and the turn and river in dealing order.
pub open spec fn observed_board(d: Deal, street: Street) -> Seq<u8> {
    let n = board_cards(street);
    if n == 0 {
        Seq::empty()
    } else {
        let f = sort3((d.board[0] as int, d.board[1] as int, d.board[2] as int));
        seq![f.0 as u8, f.1 as u8, f.2 as u8] + d.board@.subrange(3, n)
    }
}

fn sort_flop(a: u8, b: u8, c: u8) -> (r: (u8, u8, u8))
    ensures
        (r.0 as int, r.1 as int, r.2 as int) == sort3((a as int, b as int, c as int)),
{
    if a <= b {
        if b <= c {
            (a, b, c)
        } else if a <= c {
            (a, c, b)
        } else {
            (c, a, b)
        }
    } else {
        if a <= c {
            (b, a, c)
        } else if b <= c {
            (b, c, a)
        } else {
            (c, b, a)
        }
    }
}

/// The board as observed on `street`; see [`observed_board`].
pub fn observed_public_board(deal: &Deal, street: Street) -> (key: Vec<u8>)
    ensures
        key@ == observed_board(*deal, street),
{
    let n = street.board_len();
    let mut key: Vec<u8> = Vec::new();
    if n == 0 {
        proof {
            assert(key@ =~= observed_board(*deal, street));
        }
        return key;
    }
    let (x, y, z) = sort_flop(deal.board[0], deal.board[1], deal.board[2]);
    key.push(x);
    key.push(y);
    key.push(z);
    let mut i: usize = 3;
    while i < n
        invariant
            3 <= i <= n <= 5,
            n == board_cards(street),
            key@ == seq![x, y, z] + deal.board@.subrange(3, i as int),
        decreases n - i,
    {
        key.push(deal.board[i]);
        proof {
            assert(deal.board@.subrange(3, i as int + 1) =~= deal.board@.subrange(3, i as int).push(deal.board@[i as int]));
        }
        i += 1;
    }
    proof {
        let f = sort3((deal.board[0] as int, deal.board[1] as int, deal.board[2] as int));
        assert(f.0 as u8 == x && f.1 as u8 == y && f.2 as u8 == z);
        assert(key@ =~= observed_board(*deal, street));
    }
    key
}

/// The cards below `n` that `used` does not contain, ascending.
pub open spec fn free_below(used: Seq<u8>, n: int) -> Seq<int>
    decreases n,
{
    if n <= 0 {
        Seq::empty()
    } else if used.contains((n - 1) as u8) {
        free_below(used, n - 1)
    } else {
        free_below(used, n - 1).push(n - 1)
    }
}

proof fn lemma_free_below_unused(n: int)
    requires
        0 <= n,
    ensures
        free_below(Seq::empty(), n).len() == n,
    decreases n,
{
    if n > 0 {
        lemma_free_below_unused(n - 1);
    }
}

/// Excluding one more card shortens the free list by at most one.
proof fn lemma_free_below_one_more(used: Seq<u8>, n: int)
    requires
        used.len() > 0,
        0 <= n <= 256,
    ensures
        free_below(used, n).len() + (if (used.last() as int) < n { 1int } else { 0int })
            >= free_below(used.drop_last(), n).len(),
    decreases n,
{
    if n > 0 {
        lemma_free_below_one_more(used, n - 1);
        let c = (n - 1) as u8;
        let rest = used.drop_last();
        assert(used =~= rest.push(used.last()));
        if rest.contains(c) {
            let k = choose|k: int| 0 <= k < rest.len() && rest[k] == c;
            assert(used[k] == c);
        }
        if used.contains(c) && !rest.contains(c) {
            let k = choose|k: int| 0 <= k < used.len() && used[k] == c;
            if k < rest.len() {
                assert(rest[k] == c);
            }
        }
    }
}

/// At most `used.len()` cards below `n` are excluded.
pub proof fn lemma_free_below_count(used: Seq<u8>, n: int)
    requires
        0 <= n <= 256,
    ensures
        free_below(used, n).len() >= n - used.len(),
    decreases used.len(),
{
    if used.len() == 0 {
        assert(used =~= Seq::<u8>::empty());
        lemma_free_below_unused(n);
    } else {
        lemma_free_below_count(used.drop_last(), n);
        lemma_free_below_one_more(used, n);
    }
}

/// Whether some card occurs twice in `board`.
pub open spec fn has_repeat(board: Seq<u8>) -> bool {
    exists|i: int, j: int| 0 <= i < j < board.len() && board[i] == board[j]
}

/// Whether the private cards clash with the public board, or the board
/// repeats a card.
pub open spec fn board_conflict(private: Seq<u8>, board: Seq<u8>) -> bool {
    ||| exists|k: int| 0 <= k < private.len() && board.contains(#[trigger] private[k])
    ||| has_repeat(board)
}

/// Whether `s` holds `x`.
pub fn slice_contains(s: &[u8], x: u8) -> (b: bool)
    ensures
        b == s@.contains(x),
{
    let mut i: usize = 0;
    while i < s.len()
        invariant
            i <= s.len(),
            forall|k: int| 0 <= k < i ==> s@[k] != x,
        decreases s.len() - i,
    {
        if s[i] == x {
            return true;
        }
        i += 1;
    }
    false
}

fn slice_has_repeat(s: &[u8]) -> (b: bool)
    ensures
        b == has_repeat(s@),
{
    let mut j: usize = 0;
    while j < s.len()
        invariant
            j <= s.len(),
            forall|a: int, b: int| 0 <= a < b < j ==> s@[a] != s@[b],
        decreases s.len() - j,
    {
        let mut i: usize = 0;
        while i < j
            invariant
                i <= j < s.len(),
                forall|a: int| 0 <= a < i ==> s@[a] != s@[j as int],
            decreases j - i,
        {
            if s[i] == s[j] {
                return true;
            }
            i += 1;
        }
        j += 1;
    }
    false
}

/// The cards of a combo, higher first.
pub open spec fn combo_cards(c: Combo) -> Seq<u8> {
    seq![c.high, c.low]
}

/// A synthetic deal that gives `combo` to `actor` on `visible_board`: the
/// opponent gets the two lowest cards left free and the board is completed
/// with the next lowest ones.
pub fn deal_for_policy_combo_on_board(combo: Combo, actor: usize, visible_board: &[u8]) -> (r: Result<Deal, String>)
    requires
        actor < 2,
    ensures
        r is Err <==> visible_board@.len() > 5 || board_conflict(combo_cards(combo), visible_board@),
        visible_board@.len() > 5 ==> (r matches Err(e) && e@ == "source policy board contains more than five cards"@),
        visible_board@.len() <= 5 && board_conflict(combo_cards(combo), visible_board@) ==> (r matches Err(e) && e@
            == "source policy private cards conflict with the public board"@),
        r matches Ok(d) ==> {
            let free = free_below(combo_cards(combo) + visible_board@, 52);
            let n = visible_board@.len() as int;
            &&& d.holes[actor as int]@ == combo_cards(combo)
            &&& d.holes[1 - actor] == [free[0] as u8, free[1] as u8]
            &&& forall|i: int| 0 <= i < n ==> d.board[i] == visible_board@[i]
            &&& forall|i: int| n <= i < 5 ==> d.board[i] == free[2 + i - n] as u8
        },
{
    if visible_board.len() > 5 {
        return Err(String::from_str("source policy board contains more than five cards"));
    }
    let private = combo.cards();
    if slice_contains(visible_board, private[0]) || slice_contains(visible_board, private[1])
        || slice_has_repeat(visible_board) {
        proof {
            if visible_board@.contains(private[0]) {
                assert(visible_board@.contains(combo_cards(combo)[0]));
            }
            if visible_board@.contains(private[1]) {
                assert(visible_board@.contains(combo_cards(combo)[1]));
            }
        }
        return Err(String::from_str("source policy private cards conflict with the public board"));
    }
    let ghost used = combo_cards(combo) + visible_board@;
    let mut available: Vec<u8> = Vec::new();
    let mut card: u8 = 0;
    while card < 52
        invariant
            card <= 52,
            used == combo_cards(combo) + visible_board@,
            private@ == combo_cards(combo),
            available@.len() == free_below(used, card as int).len(),
            forall|i: int| 0 <= i < available@.len() ==> available@[i] as int == #[trigger] free_below(used, card as int)[i],
        decreases 52 - card,
    {
        let is_used = card == private[0] || card == private[1] || slice_contains(visible_board, card);
        proof {
            if used.contains(card) {
                let k = choose|k: int| 0 <= k < used.len() && used[k] == card;
                if k >= 2 {
                    assert(visible_board@[k - 2] == card);
                }
            }
            if visible_board@.contains(card) {
                let k = choose|k: int| 0 <= k < visible_board@.len() && visible_board@[k] == card;
                assert(used[k + 2] == card);
            }
            if card == private[0] {
                assert(used[0] == card);
            }
            if card == private[1] {
                assert(used[1] == card);
            }
        }
        if !is_used {
            available.push(card);
        }
        card += 1;
    }
    let n = visible_board.len();
    if available.len() < 7 - n {
        proof {
            lemma_free_below_count(used, 52);
        }
        return Err(String::from_str("source policy synthetic deal lacks enough cards"));
    }
    let mut holes = [[0u8; 2]; 2];
    holes[actor] = private;
    holes[1 - actor] = [available[0], available[1]];
    let mut board = [0u8; 5];
    let mut i: usize = 0;
    while i < n
        invariant
            i <= n <= 5,
            n == visible_board@.len(),
            forall|k: int| 0 <= k < i ==> board[k] == visible_board@[k],
        decreases n - i,
    {
        board[i] = visible_board[i];
        i += 1;
    }
    while i < 5
        invariant
            n <= i <= 5,
            n == visible_board@.len(),
            available@.len() >= 7 - n,
            forall|k: int| 0 <= k < n ==> board[k] == visible_board@[k],
            forall|k: int| n <= k < i ==> board[k] == available@[2 + k - n],
        decreases 5 - i,
    {
        board[i] = available[i - n + 2];
        i += 1;
    }
    proof {
        assert(holes[actor as int] == private);
        assert(holes[1 - actor]@ =~= seq![available@[0], available@[1]]);
    }
    Ok(Deal { holes, board })
}

/// [`deal_for_policy_combo_on_board`] before any board card is public.
pub fn deal_for_policy_combo(combo: Combo, actor: usize) -> (d: Deal)
    requires
        actor < 2,
    ensures
        d.holes[actor as int]@ == combo_cards(combo),
        d.holes[1 - actor] == [free_below(combo_cards(combo), 52)[0] as u8, free_below(combo_cards(combo), 52)[1] as u8],
        forall|j: int| 0 <= j < 5 ==> d.board[j] == free_below(combo_cards(combo), 52)[2 + j] as u8,
{
    let empty: Vec<u8> = Vec::new();
    proof {
        assert(combo_cards(combo) + empty@ =~= combo_cards(combo));
        assert(!has_repeat(empty@));
    }
    match deal_for_policy_combo_on_board(combo, actor, empty.as_slice()) {
        Ok(d) => d,
        Err(_) => {
            proof {
                assert(false);
            }
            Deal { holes: [[0u8; 2]; 2], board: [0u8; 5] }
        },
    }
}

/// The position that step `i` of a partial Fisher-Yates shuffle of `len`
/// cards swaps into place: `i` plus the step's draw reduced to the cards left.
pub open spec fn swap_target(len: int, draws: Seq<usize>, i: int) -> int {
    i + (draws[i] as int) % (len - i)
}

/// `deck` after the first `k` steps of a partial Fisher-Yates shuffle that
/// is driven by `draws`.
pub open spec fn shuffled_prefix(deck: Seq<u8>, draws: Seq<usize>, k: int) -> Seq<u8>
    decreases k,
{
    if k <= 0 {
        deck
    } else {
        let prev = shuffled_prefix(deck, draws, k - 1);
        let i = k - 1;
        let j = swap_target(deck.len() as int, draws, i);
        prev.update(i, prev[j]).update(j, prev[i])
    }
}

/// Shuffling keeps the length of the deck.
pub proof fn lemma_shuffled_prefix_len(deck: Seq<u8>, draws: Seq<usize>, k: int)
    requires
        0 <= k <= deck.len(),
    ensures
        shuffled_prefix(deck, draws, k).len() == deck.len(),
    decreases k,
{
    if k > 0 {
        lemma_shuffled_prefix_len(deck, draws, k - 1);
    }
}

/// Exchanging two positions keeps the multiset of cards.
pub proof fn lemma_swap_keeps_cards(s: Seq<u8>, i: int, j: int)
    requires
        0 <= i < s.len(),
        0 <= j < s.len(),
    ensures
        s.update(i, s[j]).update(j, s[i]).to_multiset() =~= s.to_multiset(),
{
    broadcast use vstd::seq_lib::group_to_multiset_ensures;
    let t = s.update(i, s[j]).update(j, s[i]);
    if i != j {
        let (a, b) = if i < j { (i, j) } else { (j, i) };
        assert(t.remove(b).remove(a) =~= s.remove(b).remove(a));
        let u = s.remove(b).remove(a);
        assert(s.remove(b)[a] == s[a]);
        assert(t.remove(b)[a] == t[a]);
        assert(s.to_multiset() =~= s.remove(b).to_multiset().insert(s[b]));
        assert(s.remove(b).to_multiset() =~= u.to_multiset().insert(s[a]));
        assert(t.to_multiset() =~= t.remove(b).to_multiset().insert(t[b]));
        assert(t.remove(b).to_multiset() =~= u.to_multiset().insert(t[a]));
    } else {
        assert(t =~= s);
    }
}

fn copy_cards(s: &[u8]) -> (v: Vec<u8>)
    ensures
        v@ == s@,
{
    let mut v: Vec<u8> = Vec::new();
    let mut i: usize = 0;
    while i < s.len()
        invariant
            i <= s@.len(),
            v@ == s@.take(i as int),
        decreases s.len() - i,
    {
        v.push(s[i]);
        proof {
            assert(s@.take(i as int + 1) =~= s@.take(i as int).push(s@[i as int]));
        }
        i += 1;
    }
    proof {
        assert(s@.take(s@.len() as int) =~= s@);
    }
    v
}

/// Draw `count` cards without replacement by the first `count` steps of a
/// Fisher-Yates shuffle of `available`: the drawn cards, then the rest.
pub fn sample_without_replacement(available: &[u8], count: usize, draws: &[usize]) -> (r: (Vec<u8>, Vec<u8>))
    requires
        count <= available@.len(),
        count <= draws@.len(),
    ensures
        r.0@ == shuffled_prefix(available@, draws@, count as int).take(count as int),
        r.1@ == shuffled_prefix(available@, draws@, count as int).skip(count as int),
{
    let mut deck: Vec<u8> = copy_cards(available);
    let mut index: usize = 0;
    while index < count
        invariant
            index <= count <= available@.len(),
            count <= draws@.len(),
            deck@ == shuffled_prefix(available@, draws@, index as int),
            deck@.len() == available@.len(),
        decreases count - index,
    {
        let swap = index + draws[index] % (deck.len() - index);
        let a = deck[index];
        let b = deck[swap];
        deck.set(index, b);
        deck.set(swap, a);
        index += 1;
    }
    let mut drawn: Vec<u8> = Vec::new();
    let mut rest: Vec<u8> = Vec::new();
    let mut k: usize = 0;
    while k < deck.len()
        invariant
            k <= deck@.len(),
            count <= deck@.len(),
            drawn@ == deck@.take(if k < count { k as int } else { count as int }),
            rest@ == deck@.subrange(count as int, if k < count { count as int } else { k as int }),
        decreases deck.len() - k,
    {
        if k < count {
            drawn.push(deck[k]);
            proof {
                assert(deck@.take(k as int + 1) =~= deck@.take(k as int).push(deck@[k as int]));
            }
        } else {
            rest.push(deck[k]);
            proof {
                assert(deck@.subrange(count as int, k as int + 1) =~= deck@.subrange(count as int, k as int).push(deck@[k as int]));
            }
        }
        k += 1;
    }
    proof {
        assert(rest@ =~= deck@.skip(count as int));
    }
    (drawn, rest)
}

/// Drawing without replacement neither loses nor invents a card: the drawn
/// cards and the rest together are a rearrangement of the available ones.
pub proof fn law_sample_without_replacement_keeps_cards(available: Seq<u8>, draws: Seq<usize>, count: int)
    requires
        0 <= count <= available.len(),
    ensures
        ({
            let s = shuffled_prefix(available, draws, count);
            (s.take(count) + s.skip(count)).to_multiset() =~= available.to_multiset()
        }),
    decreases count,
{
    let s = shuffled_prefix(available, draws, count);
    lemma_shuffled_prefix_len(available, draws, count);
    assert(s.take(count) + s.skip(count) =~= s);
    if count > 0 {
        law_sample_without_replacement_keeps_cards(available, draws, count - 1);
        let prev = shuffled_prefix(available, draws, count - 1);
        lemma_shuffled_prefix_len(available, draws, count - 1);
        assert(prev.take(count - 1) + prev.skip(count - 1) =~= prev);
        let i = count - 1;
        let j = swap_target(available.len() as int, draws, i);
        lemma_swap_keeps_cards(prev, i, j);
    }
}

/// The free cards are exactly the cards below `n` outside `used`, ascending.
pub proof fn lemma_free_below(used: Seq<u8>, n: int)
    requires
        0 <= n <= 52,
    ensures
        forall|c: int| free_below(used, n).contains(c) <==> 0 <= c < n && !used.contains(c as u8),
        forall|i: int, j: int|
            0 <= i < j < free_below(used, n).len() ==> free_below(used, n)[i] < free_below(used, n)[j],
        forall|i: int| 0 <= i < free_below(used, n).len() ==> 0 <= #[trigger] free_below(used, n)[i] < n,
    decreases n,
{
    if n > 0 {
        lemma_free_below(used, n - 1);
        let s = free_below(used, n - 1);
        if !used.contains((n - 1) as u8) {
            assert(free_below(used, n) == s.push(n - 1));
            assert forall|c: int| free_below(used, n).contains(c) <==> 0 <= c < n && !used.contains(c as u8) by {
                if c == n - 1 {
                    assert(free_below(used, n)[s.len() as int] == c);
                } else if free_below(used, n).contains(c) {
                    let k = choose|k: int| 0 <= k < free_below(used, n).len() && free_below(used, n)[k] == c;
                    assert(k < s.len());
                    assert(s[k] == c);
                    assert(s.contains(c));
                } else if 0 <= c < n && !used.contains(c as u8) {
                    assert(s.contains(c));
                    let k = choose|k: int| 0 <= k < s.len() && s[k] == c;
                    assert(free_below(used, n)[k] == c);
                }
            }
        }
    }
}

/// Collect the cards below 52 that `used` does not contain, ascending.
pub(crate) fn free_cards(used: &Vec<u8>) -> (free: Vec<u8>)
    ensures
        free@.len() == free_below(used@, 52).len(),
        forall|i: int| 0 <= i < free@.len() ==> free@[i] as int == #[trigger] free_below(used@, 52)[i],
{
    let mut free: Vec<u8> = Vec::new();
    let mut card: u8 = 0;
    while card < 52
        invariant
            card <= 52,
            free@.len() == free_below(used@, card as int).len(),
            forall|i: int| 0 <= i < free@.len() ==> free@[i] as int == #[trigger] free_below(used@, card as int)[i],
        decreases 52 - card,
    {
        if !slice_contains(used.as_slice(), card) {
            free.push(card);
        }
        card += 1;
    }
    free
}

/// The cards left for the hidden opponent: neither the responder's hand nor
/// the board.
pub open spec fn hidden_pool(template: Deal, responder: int) -> Seq<int> {
    free_below(template.holes[responder]@ + template.board@, 52)
}

/// The positions in the hidden pool of the two cards that sample `k` gives
/// the opponent: a first draw over the pool, then a second over the rest.
pub open spec fn hidden_pair(pool_len: int, draws: Seq<usize>, k: int) -> (int, int) {
    let first = (draws[2 * k] as int) % pool_len;
    let second = (draws[2 * k + 1] as int) % (pool_len - 1);
    (first, if second >= first { second + 1 } else { second })
}

/// Sample `samples` opponent hands uniformly from the cards that neither the
/// responder nor the board holds, keeping the responder's hand and the board
/// of `template`. Sample `k` uses the draws `2k` and `2k + 1`.
pub fn sample_opponent_hidden_scenarios(template: &Deal, responder: usize, samples: u32, draws: &[usize]) -> (deals: Vec<Deal>)
    requires
        responder < 2,
        2 * samples <= draws@.len(),
    ensures
        deals.len() == samples,
        forall|k: int|
            0 <= k < samples ==> {
                let pool = hidden_pool(*template, responder as int);
                let (f, s) = hidden_pair(pool.len() as int, draws@, k);
                &&& (#[trigger] deals[k]).board == template.board
                &&& deals[k].holes[responder as int] == template.holes[responder as int]
                &&& deals[k].holes[1 - responder] == [pool[f] as u8, pool[s] as u8]
                &&& f != s
                &&& 0 <= f < pool.len() && 0 <= s < pool.len()
            },
{
    let mut used: Vec<u8> = Vec::new();
    used.push(template.holes[responder][0]);
    used.push(template.holes[responder][1]);
    let mut b: usize = 0;
    while b < 5
        invariant
            b <= 5,
            responder < 2,
            used@ == template.holes[responder as int]@ + template.board@.take(b as int),
        decreases 5 - b,
    {
        used.push(template.board[b]);
        proof {
            assert(template.board@.take(b as int + 1) =~= template.board@.take(b as int).push(template.board@[b as int]));
        }
        b += 1;
    }
    proof {
        assert(template.board@.take(5) =~= template.board@);
        assert(template.holes[responder as int]@ =~= seq![template.holes[responder as int][0], template.holes[responder as int][1]]);
    }
    let available = free_cards(&used);
    let ghost pool = hidden_pool(*template, responder as int);
    proof {
        lemma_free_below_count(used@, 52);
    }
    let mut deals: Vec<Deal> = Vec::new();
    let mut k: u32 = 0;
    while k < samples
        invariant
            k <= samples,
            2 * samples <= draws@.len(),
            responder < 2,
            pool == hidden_pool(*template, responder as int),
            available@.len() == pool.len(),
            pool.len() >= 45,
            forall|i: int| 0 <= i < available@.len() ==> available@[i] as int == #[trigger] pool[i],
            deals.len() == k,
            forall|j: int|
                0 <= j < k ==> {
                    let (f, s) = hidden_pair(pool.len() as int, draws@, j);
                    &&& (#[trigger] deals[j]).board == template.board
                    &&& deals[j].holes[responder as int] == template.holes[responder as int]
                    &&& deals[j].holes[1 - responder] == [pool[f] as u8, pool[s] as u8]
                    &&& f != s
                    &&& 0 <= f < pool.len() && 0 <= s < pool.len()
                },
        decreases samples - k,
    {
        let draw_count = draws.len();
        assert((k as int) + (k as int) + 1 < draw_count);
        let at: usize = (k as usize) + (k as usize);
        let first_index = draws[at] % available.len();
        let mut second_index = draws[at + 1] % (available.len() - 1);
        if second_index >= first_index {
            second_index += 1;
        }
        let mut holes = [[0u8; 2]; 2];
        holes[responder] = template.holes[responder];
        holes[1 - responder] = [available[first_index], available[second_index]];
        deals.push(Deal { holes, board: template.board });
        k += 1;
    }
    deals
}

/// The opponent hands that hidden-scenario sampling deals are real hands
/// that clash with nothing: two different cards, neither held by the
/// responder nor on the board.
pub proof fn law_hidden_scenarios_deal_free_cards(template: Deal, responder: int, draws: Seq<usize>, k: int)
    requires
        0 <= responder < 2,
        2 * k + 1 < draws.len(),
        0 <= k,
    ensures
        ({
            let pool = hidden_pool(template, responder);
            let (f, s) = hidden_pair(pool.len() as int, draws, k);
            let used = template.holes[responder]@ + template.board@;
            &&& pool[f] != pool[s]
            &&& 0 <= pool[f] < 52 && 0 <= pool[s] < 52
            &&& !used.contains(pool[f] as u8)
            &&& !used.contains(pool[s] as u8)
        }),
{
    let used = template.holes[responder]@ + template.board@;
    let pool = hidden_pool(template, responder);
    lemma_free_below_count(used, 52);
    lemma_free_below(used, 52);
    let (f, s) = hidden_pair(pool.len() as int, draws, k);
    assert(pool.contains(pool[f]));
    assert(pool.contains(pool[s]));
    if f < s {
        assert(pool[f] < pool[s]);
    } else {
        assert(pool[s] < pool[f]);
    }
}

/// Sample `k` of hidden-scenario sampling is driven by its own two draws,
/// `2k` and `2k + 1`, and by nothing else: its first card is the pool card
/// at `draws[2k]` modulo the pool size, and two draw lists that agree at
/// those two positions give sample `k` the same two cards, whatever they
/// hold elsewhere; so consecutive samples share no draw.
pub proof fn law_hidden_sample_uses_its_own_draws(pool_len: int, draws: Seq<usize>, other: Seq<usize>, k: int)
    requires
        0 <= k,
        2 * k + 1 < draws.len(),
        2 * k + 1 < other.len(),
        draws[2 * k] == other[2 * k],
        draws[2 * k + 1] == other[2 * k + 1],
    ensures
        hidden_pair(pool_len, draws, k).0 == (draws[2 * k] as int) % pool_len,
        hidden_pair(pool_len, draws, k) == hidden_pair(pool_len, other, k),
{
}

/// Whether two combos share a card.
pub open spec fn combos_overlap(a: Combo, b: Combo) -> bool {
    a.high == b.high || a.high == b.low || a.low == b.high || a.low == b.low
}

/// The first `n` combos of `combos` that share no card with `fixed`, in order.
pub open spec fn compatible_below(combos: Seq<Combo>, fixed: Combo, n: int) -> Seq<Combo>
    decreases n,
{
    if n <= 0 {
        Seq::empty()
    } else if combos_overlap(fixed, combos[n - 1]) {
        compatible_below(combos, fixed, n - 1)
    } else {
        compatible_below(combos, fixed, n - 1).push(combos[n - 1])
    }
}

/// A sequence of card numbers as bytes.
pub open spec fn as_cards(s: Seq<int>) -> Seq<u8> {
    s.map_values(|c: int| c as u8)
}

/// What the deal of position `index` in a stratified cycle over `combos`
/// is, whatever the draws: the seat of the block holds combo `index % n`,
/// the other seat holds a listed combo, and the nine cards are different
/// cards of the deck.
pub open spec fn stratified_outcome(combos: Seq<Combo>, index: int, d: Deal) -> bool {
    let n = combos.len() as int;
    let seat = (index / n) % 2;
    &&& d.holes[seat]@ == combo_cards(combos[index % n])
    &&& exists|j: int| 0 <= j < n && d.holes[1 - seat]@ == combo_cards(#[trigger] combos[j])
    &&& deal_cards(d).no_duplicates()
    &&& forall|k: int| 0 <= k < 9 ==> #[trigger] deal_cards(d)[k] < 52
}

/// The deal of position `index` in a stratified cycle over `combos`:
/// consecutive blocks of `combos.len()` positions fix seat 0, then seat 1,
/// to each combo in turn; the opponent gets a compatible combo chosen by
/// `opponent_draw`, and the board is the first five cards of a Fisher-Yates
/// shuffle of the remaining deck driven by `board_draws`.
pub fn stratified_deal(index: usize, combos: &[Combo], opponent_draw: usize, board_draws: &[usize]) -> (d: Deal)
    requires
        combos@.len() > 0,
        forall|i: int| 0 <= i < combos@.len() ==> (#[trigger] combos@[i]).wf(),
        compatible_below(combos@, combos@[index as int % combos@.len() as int], combos@.len() as int).len() > 0,
        board_draws@.len() >= 5,
    ensures
        ({
            let n = combos@.len() as int;
            let fixed = combos@[index as int % n];
            let seat = (index as int / n) % 2;
            let compatible = compatible_below(combos@, fixed, n);
            let opponent = compatible[opponent_draw as int % compatible.len() as int];
            let pool = as_cards(free_below(d.holes[0]@ + d.holes[1]@, 52));
            &&& d.holes[seat]@ == combo_cards(fixed)
            &&& d.holes[1 - seat]@ == combo_cards(opponent)
            &&& d.board@ == shuffled_prefix(pool, board_draws@, 5).take(5)
        }),
        deal_cards(d).no_duplicates(),
        forall|i: int| 0 <= i < 9 ==> #[trigger] deal_cards(d)[i] < 52,
        stratified_outcome(combos@, index as int, d),
{
    let n = combos.len();
    let block = index / n;
    let seat = block % 2;
    let fixed = combos[index % n];
    let mut compatible: Vec<Combo> = Vec::new();
    let mut i: usize = 0;
    while i < n
        invariant
            i <= n == combos@.len(),
            fixed == combos@[index as int % n as int],
            compatible@ == compatible_below(combos@, fixed, i as int),
            forall|k: int| 0 <= k < combos@.len() ==> (#[trigger] combos@[k]).wf(),
        decreases n - i,
    {
        let candidate = combos[i];
        if !fixed.overlaps(candidate) {
            compatible.push(candidate);
        }
        i += 1;
    }
    proof {
        lemma_compatible_below_wf(combos@, fixed, n as int);
    }
    let opponent = compatible[opponent_draw % compatible.len()];
    let mut holes = [[0u8; 2]; 2];
    holes[seat] = fixed.cards();
    holes[1 - seat] = opponent.cards();
    let mut used: Vec<u8> = Vec::new();
    used.push(holes[0][0]);
    used.push(holes[0][1]);
    used.push(holes[1][0]);
    used.push(holes[1][1]);
    proof {
        assert(used@ =~= holes[0]@ + holes[1]@);
    }
    let available = free_cards(&used);
    proof {
        lemma_free_below_count(used@, 52);
        lemma_free_below(used@, 52);
        assert(available@ =~= as_cards(free_below(used@, 52)));
    }
    let (drawn, _rest) = sample_without_replacement(available.as_slice(), 5, board_draws);
    proof {
        lemma_shuffled_prefix_len(available@, board_draws@, 5);
    }
    let board = [drawn[0], drawn[1], drawn[2], drawn[3], drawn[4]];
    proof {
        assert(board@ =~= drawn@);
        lemma_compatible_below_apart(combos@, fixed, n as int);
        let compatible = compatible_below(combos@, fixed, n as int);
        assert(compatible[opponent_draw as int % compatible.len() as int] == opponent);
        let j = choose|j: int| 0 <= j < n && compatible[opponent_draw as int % compatible.len() as int] == combos@[j];
        assert(combos@[j] == opponent);
        assert(opponent.wf() && fixed.wf() && !combos_overlap(fixed, opponent));
        lemma_free_below(used@, 52);
        let pool = available@;
        assert(pool.no_duplicates()) by {
            assert forall|i: int, j: int| 0 <= i < pool.len() && 0 <= j < pool.len() && i != j implies pool[i] != pool[j] by {
                if i < j {
                    assert(free_below(used@, 52)[i] < free_below(used@, 52)[j]);
                } else {
                    assert(free_below(used@, 52)[j] < free_below(used@, 52)[i]);
                }
            }
        }
        assert forall|x: u8| pool.contains(x) implies x < 52 && !used@.contains(x) by {
            let k = choose|k: int| 0 <= k < pool.len() && pool[k] == x;
            assert(free_below(used@, 52)[k] == x as int);
            assert(free_below(used@, 52).contains(x as int));
        }
        lemma_shuffle_draws_distinct(pool, board_draws@, 5);
        let b = board@;
        assert forall|i: int| 0 <= i < 5 implies b.contains(#[trigger] b[i]) by {}
        assert forall|i: int| 0 <= i < 5 implies #[trigger] b[i] < 52 && !used@.contains(b[i]) by {
            assert(b.contains(b[i]));
            assert(pool.contains(b[i]));
        }
        let cs = deal_cards(Deal { holes, board });
        assert(used@ == seq![cs[0], cs[1], cs[2], cs[3]]);
        assert forall|i: int| 0 <= i < 4 implies used@.contains(#[trigger] cs[i]) by {
            assert(used@[i] == cs[i]);
        }
        assert forall|i: int, j: int| 0 <= i < 9 && 0 <= j < 9 && i != j implies cs[i] != cs[j] by {
            if i >= 4 && j >= 4 {
                assert(cs[i] == b[i - 4] && cs[j] == b[j - 4]);
            } else if i >= 4 {
                assert(cs[i] == b[i - 4]);
                assert(used@.contains(cs[j]));
            } else if j >= 4 {
                assert(cs[j] == b[j - 4]);
                assert(used@.contains(cs[i]));
            }
        }
    }
    Deal { holes, board }
}

/// The combos of the compatible list share no card with `fixed`.
proof fn lemma_compatible_below_apart(combos: Seq<Combo>, fixed: Combo, n: int)
    requires
        0 <= n <= combos.len(),
    ensures
        forall|i: int|
            0 <= i < compatible_below(combos, fixed, n).len() ==> !combos_overlap(fixed, #[trigger] compatible_below(combos, fixed, n)[i]),
        forall|i: int|
            0 <= i < compatible_below(combos, fixed, n).len() ==> exists|j: int| 0 <= j < n && #[trigger] compatible_below(combos, fixed, n)[i] == combos[j],
    decreases n,
{
    if n > 0 {
        lemma_compatible_below_apart(combos, fixed, n - 1);
        let prev = compatible_below(combos, fixed, n - 1);
        let cur = compatible_below(combos, fixed, n);
        assert forall|i: int| 0 <= i < cur.len() implies !combos_overlap(fixed, #[trigger] cur[i]) && exists|j: int| 0 <= j < n && cur[i] == combos[j] by {
            if i < prev.len() {
                assert(cur[i] == prev[i]);
                let j = choose|j: int| 0 <= j < n - 1 && prev[i] == combos[j];
            } else {
                assert(cur[i] == combos[n - 1]);
            }
        }
    }
}

/// The first `k` cards that a shuffle of a deck without repeats draws are
/// different cards of the deck.
pub proof fn lemma_shuffle_draws_distinct(deck: Seq<u8>, draws: Seq<usize>, k: int)
    requires
        deck.no_duplicates(),
        0 <= k <= deck.len(),
    ensures
        shuffled_prefix(deck, draws, k).take(k).no_duplicates(),
        forall|x: u8| shuffled_prefix(deck, draws, k).take(k).contains(x) ==> deck.contains(x),
{
    broadcast use vstd::seq_lib::group_to_multiset_ensures;
    let s = shuffled_prefix(deck, draws, k);
    lemma_shuffled_prefix_len(deck, draws, k);
    law_sample_without_replacement_keeps_cards(deck, draws, k);
    assert(s.take(k) + s.skip(k) =~= s);
    deck.lemma_multiset_has_no_duplicates();
    assert forall|x: u8| s.to_multiset().contains(x) implies s.to_multiset().count(x) == 1 by {
        assert(deck.to_multiset().contains(x));
    }
    s.lemma_multiset_has_no_duplicates_conv();
    let a = s.take(k);
    assert forall|x: u8| a.contains(x) implies deck.contains(x) by {
        let i = choose|i: int| 0 <= i < a.len() && a[i] == x;
        assert(s[i] == x);
        assert(s.contains(x));
        assert(s.to_multiset().count(x) > 0);
    }
    assert forall|i: int, j: int| 0 <= i < a.len() && 0 <= j < a.len() && i != j implies a[i] != a[j] by {
        assert(a[i] == s[i] && a[j] == s[j]);
    }
}

proof fn lemma_compatible_below_wf(combos: Seq<Combo>, fixed: Combo, n: int)
    requires
        0 <= n <= combos.len(),
        forall|i: int| 0 <= i < combos.len() ==> (#[trigger] combos[i]).wf(),
    ensures
        forall|i: int| 0 <= i < compatible_below(combos, fixed, n).len() ==> (#[trigger] compatible_below(combos, fixed, n)[i]).wf(),
    decreases n,
{
    if n > 0 {
        lemma_compatible_below_wf(combos, fixed, n - 1);
        let prev = compatible_below(combos, fixed, n - 1);
        let cur = compatible_below(combos, fixed, n);
        assert(combos[n - 1].wf());
        assert forall|i: int| 0 <= i < cur.len() implies (#[trigger] cur[i]).wf() by {
            if i < prev.len() {
                assert(cur[i] == prev[i]);
            } else {
                assert(cur[i] == combos[n - 1]);
            }
        }
    }
}

/// The combos that seat `seat` holds over a list of deals.
pub open spec fn seat_combos(deals: Seq<Deal>, seat: int) -> Set<Combo> {
    Set::new(|c: Combo| exists|i: int| 0 <= i < deals.len() && #[trigger] deals[i].holes[seat]@ == combo_cards(c))
}

/// Two combos with the same cards are the same combo.
proof fn lemma_combo_cards_injective(a: Combo, b: Combo)
    requires
        combo_cards(a) == combo_cards(b),
    ensures
        a == b,
{
    assert(combo_cards(a)[0] == combo_cards(b)[0]);
    assert(combo_cards(a)[1] == combo_cards(b)[1]);
}

/// A complete stratified cycle, `2 * n` deals over a list of `n` combos,
/// deals every listed combo to each seat: position `p * n + c` gives seat
/// `p` combo `c`. Over the cycle each seat holds exactly the listed combos,
/// so, where the list has no repeats, as many different combos as the list
/// is long.
pub proof fn law_stratified_cycle_covers_both_seats(combos: Seq<Combo>, deals: Seq<Deal>)
    requires
        combos.len() > 0,
        deals.len() == 2 * combos.len(),
        forall|i: int| 0 <= i < deals.len() ==> stratified_outcome(combos, i, #[trigger] deals[i]),
    ensures
        forall|p: int, c: int|
            0 <= p < 2 && 0 <= c < combos.len() ==> #[trigger] deals[p * combos.len() + c].holes[p]@ == combo_cards(combos[c]),
        seat_combos(deals, 0) == combos.to_set(),
        seat_combos(deals, 1) == combos.to_set(),
        combos.no_duplicates() ==> seat_combos(deals, 0).len() == combos.len() && seat_combos(deals, 1).len() == combos.len(),
{
    let n = combos.len() as int;
    assert forall|p: int, c: int| 0 <= p < 2 && 0 <= c < n implies #[trigger] deals[p * n + c].holes[p]@ == combo_cards(combos[c]) by {
        vstd::arithmetic::div_mod::lemma_fundamental_div_mod_converse(p * n + c, n, p, c);
        assert(p * n + c < 2 * n) by (nonlinear_arith)
            requires 0 <= p < 2, 0 <= c < n;
        assert(stratified_outcome(combos, p * n + c, deals[p * n + c]));
    }
    assert forall|p: int| 0 <= p < 2 implies #[trigger] seat_combos(deals, p) == combos.to_set() by {
        assert forall|c: Combo| combos.to_set().contains(c) implies seat_combos(deals, p).contains(c) by {
            let k = choose|k: int| 0 <= k < n && combos[k] == c;
            assert(deals[p * n + k].holes[p]@ == combo_cards(combos[k]));
            assert(0 <= p * n + k < 2 * n) by (nonlinear_arith)
                requires 0 <= p < 2, 0 <= k < n;
        }
        assert forall|c: Combo| seat_combos(deals, p).contains(c) implies combos.to_set().contains(c) by {
            let i = choose|i: int| 0 <= i < deals.len() && #[trigger] deals[i].holes[p]@ == combo_cards(c);
            assert(stratified_outcome(combos, i, deals[i]));
            let seat = (i / n) % 2;
            if seat == p {
                lemma_combo_cards_injective(c, combos[i % n]);
                assert(combos[i % n] == c);
            } else {
                assert(p == 1 - seat);
                let j = choose|j: int| 0 <= j < n && deals[i].holes[1 - seat]@ == combo_cards(combos[j]);
                lemma_combo_cards_injective(c, combos[j]);
                assert(combos[j] == c);
            }
        }
        assert(seat_combos(deals, p) =~= combos.to_set());
    }
    if combos.no_duplicates() {
        combos.unique_seq_to_set();
    }
}

} // verus!
