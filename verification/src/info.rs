//! Information-set keys of the tabular preflop solver, and class sizes.
use vstd::prelude::*;
use crate::cards::{Combo, combo_label, push_char};
use crate::deals::Deal;
use crate::text::{push_text, join_texts, joined, texts};
use vstd::string::StrSliceExecFns;
use vstd::string::StringSliceAdditionalSpecFns;

verus! {

/// The combo of the two private cards of `player`.
pub open spec fn hand_combo(deal: Deal, player: int) -> Combo {
    let a = deal.holes[player][0];
    let b = deal.holes[player][1];
    if a > b {
        Combo { high: a, low: b }
    } else {
        Combo { high: b, low: a }
    }
}

/// The preflop class label of `player`'s private hand, e.g. `AKs`.
pub fn hand_class(deal: &Deal, player: usize) -> (s: String)
    requires
        player < 2,
        deal.holes[player as int][0] < 52,
        deal.holes[player as int][1] < 52,
        deal.holes[player as int][0] != deal.holes[player as int][1],
    ensures
        s@ == combo_label(hand_combo(*deal, player as int)),
{
    Combo::new(deal.holes[player][0], deal.holes[player][1]).label()
}

/// The information key of the actor: seat, own hand class and public
/// action history, as `p<seat>|<class>|<history joined by '/'>`.
pub open spec fn information_key_text(actor: int, deal: Deal, history: Seq<Seq<char>>) -> Seq<char> {
    seq!['p', if actor == 0 { '0' } else { '1' }, '|'] + combo_label(hand_combo(deal, actor)) + seq!['|'] + joined(
        history,
        '/',
    )
}

/// The key under which the tabular solver stores the actor's information
/// set: it depends on the actor's seat, hand class and the public history,
/// and on nothing the actor cannot see.
pub fn information_key(actor: usize, deal: &Deal, public_history: &[String]) -> (key: String)
    requires
        actor < 2,
        deal.holes[actor as int][0] < 52,
        deal.holes[actor as int][1] < 52,
        deal.holes[actor as int][0] != deal.holes[actor as int][1],
    ensures
        key@ == information_key_text(actor as int, *deal, texts(public_history@)),
{
    let mut key = String::new();
    push_char(&mut key, 'p');
    push_char(&mut key, if actor == 0 { '0' } else { '1' });
    push_char(&mut key, '|');
    let class = hand_class(deal, actor);
    push_text(&mut key, class.as_str());
    push_char(&mut key, '|');
    let history = join_texts(public_history, '/');
    push_text(&mut key, history.as_str());
    proof {
        assert(key@ =~= information_key_text(actor as int, *deal, texts(public_history@)));
    }
    key
}

/// The information key that the neural policy is trained against: the same
/// key as the tabular solver's.
pub fn neural_policy_information_key(actor: usize, deal: &Deal, public_history: &[String]) -> (key: String)
    requires
        actor < 2,
        deal.holes[actor as int][0] < 52,
        deal.holes[actor as int][1] < 52,
        deal.holes[actor as int][0] != deal.holes[actor as int][1],
    ensures
        key@ == information_key_text(actor as int, *deal, texts(public_history@)),
{
    information_key(actor, deal, public_history)
}

/// The information key hides what the actor cannot see: two deals that give
/// the actor hands of one class produce the same key, whatever the
/// opponent's cards and the board.
pub proof fn law_information_key_hides_hidden_cards(actor: int, d1: Deal, d2: Deal, history: Seq<Seq<char>>)
    requires
        0 <= actor < 2,
        combo_label(hand_combo(d1, actor)) == combo_label(hand_combo(d2, actor)),
    ensures
        information_key_text(actor, d1, history) == information_key_text(actor, d2, history),
{
}

/// Number of exact private combos in a preflop class: six for a pair (a
/// two-character label), four for a suited class, twelve for an offsuit one.
pub open spec fn class_combo_count(label: &str) -> int {
    if label.len() == 2 {
        6
    } else if label@.len() > 0 && label@.last() == 's' {
        4
    } else {
        12
    }
}

/// The number of exact private combos in the class labelled `hand_class`.
pub fn exact_combo_count(hand_class: &str) -> (n: usize)
    ensures
        n == class_combo_count(hand_class),
{
    if hand_class.len() == 2 {
        6
    } else {
        let n = hand_class.unicode_len();
        if n > 0 && hand_class.get_char(n - 1) == 's' {
            4
        } else {
            12
        }
    }
}

} // verus!
