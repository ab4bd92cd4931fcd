//! The structure of a range continuation cache: which canonical flops it
//! covers, under which public histories, and from which resolver.
use vstd::prelude::*;
use vstd::string::StrSliceExecFns;
use vstd::utf8::encode_utf8;
use crate::cards::COMBO_COUNT;
use crate::flop::{canonical_flop, canonical_flop_suits, lex_lt, triple_of};
use crate::provenance::{is_hex_digest, is_hex_digest_bytes};
use crate::text::str_eq;

verus! {

/// Whether a character has the Unicode `White_Space` property.
pub uninterp spec fn white_space(c: char) -> bool;

/// `char::is_whitespace`: whether `c` has the Unicode `White_Space`
/// property. The standard library documents it by that property of the
/// Unicode character database and lists no characters, so the property is
/// left as a name.
#[verifier::external_body]
fn is_white_space(c: char) -> (b: bool)
    ensures
        b == white_space(c),
{
    c.is_whitespace()
}

/// A text that trimming leaves empty: every character is white space.
pub open spec fn blank(s: Seq<char>) -> bool {
    forall|i: int| 0 <= i < s.len() ==> white_space(#[trigger] s[i])
}

fn is_blank(s: &str) -> (b: bool)
    ensures
        b == blank(s@),
{
    let n = s.unicode_len();
    let mut i: usize = 0;
    while i < n
        invariant
            n == s@.len(),
            i <= n,
            forall|j: int| 0 <= j < i ==> white_space(#[trigger] s@[j]),
        decreases n - i,
    {
        if !is_white_space(s.get_char(i)) {
            return false;
        }
        i += 1;
    }
    true
}

/// One cached canonical flop: its board, how many raw flops its orbit
/// holds, and for each public history key (ascending) the lengths of the
/// two players' per-combo value vectors.
pub struct RangeContinuationBoardShape {
    pub board: [u8; 3],
    pub orbit_size: usize,
    pub continuations: Vec<(u64, [usize; 2])>,
}

/// What the checks and the merge of a range continuation cache read:
/// schema, coverage, seed, provenance digests, resolver schedule, the
/// history keys of the cache (ascending) and of its leaf reach table
/// (ascending), and the outcomes of the checks of its floating-point values.
pub struct RangeContinuationCacheShape {
    pub schema: String,
    pub seed: u64,
    pub complete_canonical_flop_enumeration: bool,
    pub covered_raw_flops: usize,
    pub board_workers: usize,
    pub policy_model_version: String,
    pub policy_sha256: String,
    pub value_network_sha256: String,
    pub evaluation_value_network_sha256: Option<String>,
    pub range_policy_sha256: Option<String>,
    pub resolver_iterations: u64,
    pub resolver_averaging_delay: u64,
    pub resolver_threads: usize,
    pub regret_matching_plus: bool,
    pub history_keys: Vec<u64>,
    pub reach_keys: Vec<u64>,
    pub boards: Vec<RangeContinuationBoardShape>,
    /// Every leaf reach probability is finite and within `[0, 1]`.
    pub reach_values_valid: bool,
    /// Every continuation value is finite and within the stack.
    pub continuation_values_valid: bool,
    /// The depth is the game's effective stack, and the resolver's discount
    /// exponents and value uncertainty are finite and non-negative.
    pub parameters_valid: bool,
}

/// The schema of a range continuation cache.
pub open spec fn range_cache_schema() -> Seq<char> {
    "hu-preflop-range-continuation-cache-v2"@
}

/// Whether `k` is one of `keys`.
pub open spec fn key_listed(keys: Seq<u64>, k: u64) -> bool {
    exists|i: int| 0 <= i < keys.len() && keys[i] == k
}

/// The history keys of a cached board's continuations.
pub open spec fn board_keys(b: RangeContinuationBoardShape) -> Seq<u64> {
    b.continuations@.map_values(|e: (u64, [usize; 2])| e.0)
}

/// A cached board is its own canonical flop, has an orbit of 4, 12 or 24
/// raw flops, holds exactly the cache's history keys, and one value per
/// private combo for each player.
pub open spec fn board_shape_valid(b: RangeContinuationBoardShape, history_keys: Seq<u64>) -> bool {
    &&& canonical_flop(triple_of(b.board)) == triple_of(b.board)
    &&& (b.orbit_size == 4 || b.orbit_size == 12 || b.orbit_size == 24)
    &&& board_keys(b) == history_keys
    &&& forall|i: int|
        0 <= i < b.continuations@.len() ==> (#[trigger] b.continuations@[i]).1[0] == COMBO_COUNT
            && b.continuations@[i].1[1] == COMBO_COUNT
}

/// The raw flops the boards cover, counted by orbit.
pub open spec fn orbit_total(boards: Seq<RangeContinuationBoardShape>) -> int
    decreases boards.len(),
{
    if boards.len() == 0 {
        0
    } else {
        orbit_total(boards.drop_last()) + boards.last().orbit_size
    }
}

/// The structural validity of a range continuation cache.
pub open spec fn range_shape_valid(c: RangeContinuationCacheShape) -> bool {
    &&& c.schema@ == range_cache_schema()
    &&& c.boards@.len() > 0
    &&& c.board_workers > 0
    &&& c.history_keys@.len() > 0
    &&& c.history_keys@.len() == c.reach_keys@.len()
    &&& forall|i: int| 0 <= i < c.reach_keys@.len() ==> key_listed(c.history_keys@, #[trigger] c.reach_keys@[i])
    &&& forall|i: int, j: int|
        0 <= i < j < c.boards@.len() ==> triple_of(#[trigger] c.boards@[i].board) != triple_of(#[trigger] c.boards@[j].board)
    &&& forall|i: int| 0 <= i < c.boards@.len() ==> board_shape_valid(#[trigger] c.boards@[i], c.history_keys@)
    &&& orbit_total(c.boards@) == c.covered_raw_flops
    &&& c.complete_canonical_flop_enumeration == (c.boards@.len() == 1755 && c.covered_raw_flops == 22100)
    &&& !blank(c.policy_model_version@)
    &&& is_hex_digest_bytes(encode_utf8(c.policy_sha256@))
    &&& is_hex_digest_bytes(encode_utf8(c.value_network_sha256@))
    &&& match c.evaluation_value_network_sha256 {
        Some(d) => is_hex_digest_bytes(encode_utf8(d@)),
        None => true,
    }
    &&& match c.range_policy_sha256 {
        Some(d) => d@ == c.policy_sha256@,
        None => false,
    }
    &&& c.resolver_iterations >= 2
    &&& c.resolver_averaging_delay < c.resolver_iterations
    &&& c.resolver_threads > 0
    &&& c.reach_values_valid
    &&& c.continuation_values_valid
    &&& c.parameters_valid
}

pub(crate) fn keys_listed(keys: &Vec<u64>, sub: &Vec<u64>) -> (b: bool)
    ensures
        b == forall|i: int| 0 <= i < sub@.len() ==> key_listed(keys@, #[trigger] sub@[i]),
{
    let mut i: usize = 0;
    while i < sub.len()
        invariant
            i <= sub@.len(),
            forall|x: int| 0 <= x < i ==> key_listed(keys@, #[trigger] sub@[x]),
        decreases sub.len() - i,
    {
        let mut j: usize = 0;
        let mut found = false;
        while j < keys.len()
            invariant
                j <= keys@.len(),
                i < sub@.len(),
                found ==> key_listed(keys@, sub@[i as int]),
                !found ==> forall|y: int| 0 <= y < j ==> keys@[y] != sub@[i as int],
            decreases keys.len() - j,
        {
            if keys[j] == sub[i] {
                found = true;
            }
            j += 1;
        }
        if !found {
            assert(!key_listed(keys@, sub@[i as int]));
            return false;
        }
        i += 1;
    }
    true
}

fn same_board(a: [u8; 3], b: [u8; 3]) -> (r: bool)
    ensures
        r == (triple_of(a) == triple_of(b)),
{
    a[0] == b[0] && a[1] == b[1] && a[2] == b[2]
}

fn boards_distinct(boards: &Vec<RangeContinuationBoardShape>) -> (r: bool)
    ensures
        r == forall|i: int, j: int|
            0 <= i < j < boards@.len() ==> triple_of(#[trigger] boards@[i].board) != triple_of(#[trigger] boards@[j].board),
{
    let n = boards.len();
    let mut j: usize = 0;
    while j < n
        invariant
            n == boards@.len(),
            j <= n,
            forall|x: int, y: int| 0 <= x < y < j ==> triple_of(#[trigger] boards@[x].board) != triple_of(#[trigger] boards@[y].board),
        decreases n - j,
    {
        let mut i: usize = 0;
        while i < j
            invariant
                n == boards@.len(),
                i <= j < n,
                forall|x: int, y: int| 0 <= x < y < j ==> triple_of(#[trigger] boards@[x].board) != triple_of(#[trigger] boards@[y].board),
                forall|x: int| 0 <= x < i ==> triple_of(#[trigger] boards@[x].board) != triple_of(boards@[j as int].board),
            decreases j - i,
        {
            if same_board(boards[i].board, boards[j].board) {
                return false;
            }
            i += 1;
        }
        j += 1;
    }
    true
}

fn board_valid(b: &RangeContinuationBoardShape, history_keys: &Vec<u64>) -> (r: bool)
    ensures
        r == board_shape_valid(*b, history_keys@),
{
    let canonical = canonical_flop_suits(b.board);
    if !same_board(canonical, b.board) {
        return false;
    }
    if !(b.orbit_size == 4 || b.orbit_size == 12 || b.orbit_size == 24) {
        return false;
    }
    let n = b.continuations.len();
    if n != history_keys.len() {
        proof {
            assert(board_keys(*b).len() != history_keys@.len());
        }
        return false;
    }
    let mut i: usize = 0;
    while i < n
        invariant
            n == b.continuations@.len(),
            n == history_keys@.len(),
            i <= n,
            forall|x: int| 0 <= x < i ==> (#[trigger] b.continuations@[x]).0 == history_keys@[x],
            forall|x: int|
                0 <= x < i ==> (#[trigger] b.continuations@[x]).1[0] == COMBO_COUNT && b.continuations@[x].1[1] == COMBO_COUNT,
        decreases n - i,
    {
        let (key, lengths) = b.continuations[i];
        if key != history_keys[i] {
            proof {
                assert(board_keys(*b)[i as int] != history_keys@[i as int]);
            }
            return false;
        }
        if lengths[0] != COMBO_COUNT || lengths[1] != COMBO_COUNT {
            return false;
        }
        i += 1;
    }
    proof {
        assert(board_keys(*b) =~= history_keys@);
    }
    true
}

fn orbit_sum(boards: &Vec<RangeContinuationBoardShape>) -> (total: u128)
    requires
        forall|i: int| 0 <= i < boards@.len() ==> (#[trigger] boards@[i]).orbit_size <= 24,
    ensures
        total == orbit_total(boards@),
        total <= 24 * boards@.len(),
{
    let mut total: u128 = 0;
    let mut i: usize = 0;
    while i < boards.len()
        invariant
            i <= boards@.len(),
            forall|x: int| 0 <= x < boards@.len() ==> (#[trigger] boards@[x]).orbit_size <= 24,
            total == orbit_total(boards@.take(i as int)),
            total <= 24 * i,
        decreases boards.len() - i,
    {
        proof {
            assert(boards@.take(i as int + 1).drop_last() =~= boards@.take(i as int));
        }
        total = total + boards[i].orbit_size as u128;
        i += 1;
    }
    proof {
        assert(boards@.take(i as int) =~= boards@);
    }
    total
}

/// Two of `boards` hold the same flop.
pub open spec fn boards_overlap(boards: Seq<RangeContinuationBoardShape>) -> bool {
    exists|i: int, j: int| 0 <= i < j < boards.len() && triple_of(boards[i].board) == triple_of(boards[j].board)
}

/// The boards in strictly ascending order of flop.
pub open spec fn boards_sorted(boards: Seq<RangeContinuationBoardShape>) -> bool {
    forall|i: int, j: int|
        0 <= i < j < boards.len() ==> lex_lt(triple_of(#[trigger] boards[i].board), triple_of(#[trigger] boards[j].board))
}

fn board_less(a: [u8; 3], b: [u8; 3]) -> (r: bool)
    ensures
        r == lex_lt(triple_of(a), triple_of(b)),
{
    a[0] < b[0] || (a[0] == b[0] && (a[1] < b[1] || (a[1] == b[1] && a[2] < b[2])))
}

/// The boards of several shards, gathered in one list, in ascending order
/// of flop; refused when two shards cover the same flop.
pub fn sort_shard_boards(boards: Vec<RangeContinuationBoardShape>) -> (r: Result<Vec<RangeContinuationBoardShape>, String>)
    ensures
        r is Err <==> boards_overlap(boards@),
        r matches Err(e) ==> e@ == "range continuation cache shards overlap canonical boards"@,
        r matches Ok(sorted) ==> boards_sorted(sorted@) && sorted@.to_multiset() == boards@.to_multiset(),
{
    broadcast use vstd::seq_lib::group_to_multiset_ensures;
    let ghost original = boards@;
    let n = boards.len();
    let mut rest = boards;
    let mut out: Vec<RangeContinuationBoardShape> = Vec::new();
    let mut taken: usize = 0;
    while rest.len() > 0
        invariant
            n == original.len(),
            original == boards@,
            taken + rest@.len() == n,
            rest@ == original.skip(taken as int),
            boards_sorted(out@),
            out@.to_multiset() == original.take(taken as int).to_multiset(),
            !boards_overlap(original.take(taken as int)),
        decreases rest.len(),
    {
        let b = rest.remove(0);
        proof {
            assert(original.skip(taken as int)[0] == original[taken as int]);
            assert(rest@ =~= original.skip(taken as int + 1));
            assert(b == original[taken as int]);
        }
        let mut pos: usize = 0;
        while pos < out.len() && board_less(out[pos].board, b.board)
            invariant
                pos <= out@.len(),
                forall|x: int| 0 <= x < pos ==> lex_lt(triple_of(#[trigger] out@[x].board), triple_of(b.board)),
            decreases out.len() - pos,
        {
            pos += 1;
        }
        if pos < out.len() && same_board(out[pos].board, b.board) {
            proof {
                let dup = out@[pos as int];
                assert(out@.contains(dup));
                vstd::seq_lib::to_multiset_contains(out@, dup);
                vstd::seq_lib::to_multiset_contains(original.take(taken as int), dup);
                assert(original.take(taken as int).to_multiset().count(dup) > 0);
                assert(original.take(taken as int).contains(dup));
                let idx = choose|idx: int| 0 <= idx < taken && original.take(taken as int)[idx] == dup;
                assert(original[idx] == dup);
                assert(triple_of(original[idx].board) == triple_of(original[taken as int].board));
                assert(boards_overlap(original));
            }
            return Err(String::from_str("range continuation cache shards overlap canonical boards"));
        }
        proof {
            assert forall|x: int| pos <= x < out@.len() implies lex_lt(triple_of(b.board), triple_of(#[trigger] out@[x].board)) by {
                if x > pos {
                    assert(lex_lt(triple_of(out@[pos as int].board), triple_of(out@[x].board)));
                }
            }
            assert forall|idx: int| 0 <= idx < taken implies triple_of(#[trigger] original[idx].board) != triple_of(b.board) by {
                let item = original[idx];
                assert(original.take(taken as int)[idx] == item);
                assert(original.take(taken as int).contains(item));
                vstd::seq_lib::to_multiset_contains(out@, item);
                vstd::seq_lib::to_multiset_contains(original.take(taken as int), item);
                assert(out@.to_multiset().count(item) > 0);
                assert(out@.contains(item));
                let x = choose|x: int| 0 <= x < out@.len() && out@[x] == item;
                if x < pos {
                    assert(lex_lt(triple_of(out@[x].board), triple_of(b.board)));
                } else {
                    assert(lex_lt(triple_of(b.board), triple_of(out@[x].board)));
                }
            }
            assert(original.take(taken as int + 1) =~= original.take(taken as int).push(b));
            let next = original.take(taken as int + 1);
            assert forall|i: int, j: int| 0 <= i < j < next.len() implies triple_of(#[trigger] next[i].board) != triple_of(
                #[trigger] next[j].board,
            ) by {
                assert(next[i] == original[i]);
                assert(next[j] == original[j]);
                if j < taken {
                    assert(original.take(taken as int)[i] == original[i]);
                    assert(original.take(taken as int)[j] == original[j]);
                }
            }
        }
        let ghost before = out@;
        out.insert(pos, b);
        proof {
            assert(out@ =~= before.insert(pos as int, b));
            vstd::seq_lib::to_multiset_insert(before, pos as int, b);
            vstd::seq_lib::to_multiset_build(original.take(taken as int), b);
            assert(boards_sorted(out@)) by {
                assert forall|i: int, j: int| 0 <= i < j < out@.len() implies lex_lt(
                    triple_of(#[trigger] out@[i].board),
                    triple_of(#[trigger] out@[j].board),
                ) by {
                    if j < pos {
                        assert(lex_lt(triple_of(before[i].board), triple_of(before[j].board)));
                    } else if j == pos {
                        assert(out@[i] == before[i]);
                    } else if i < pos {
                        assert(out@[i] == before[i] && out@[j] == before[j - 1]);
                        assert(lex_lt(triple_of(before[j - 1].board), triple_of(before[j - 1].board)) || lex_lt(
                            triple_of(b.board),
                            triple_of(before[j - 1].board),
                        ));
                    } else if i == pos {
                        assert(out@[j] == before[j - 1]);
                    } else {
                        assert(lex_lt(triple_of(before[i - 1].board), triple_of(before[j - 1].board)));
                    }
                }
            }
        }
        taken += 1;
    }
    proof {
        assert(original.take(n as int) =~= original);
    }
    Ok(out)
}

impl RangeContinuationCacheShape {
    /// Checks the cache: its schema; that it covers at least one board with
    /// at least one worker and one history; that the reach table has the
    /// cache's histories; that every board is a distinct canonical flop with
    /// an orbit of 4, 12 or 24 raw flops and holds every history with one
    /// value per combo and player; that the covered raw flops add up and the
    /// enumeration is called complete exactly for all 1755 canonical flops
    /// and 22100 raw flops; that the policy version is not blank; the
    /// digests; the resolver schedule; and the value checks. Then the game:
    /// `game` is the outcome of the game configuration's own check.
    pub fn validate(&self, game: Result<(), String>) -> (r: Result<(), String>)
        ensures
            !range_shape_valid(*self) ==> (r matches Err(e) && e@ == "range continuation cache is incomplete or incompatible"@),
            range_shape_valid(*self) ==> r == game,
    {
        if self.structure_valid() {
            game
        } else {
            Err(String::from_str("range continuation cache is incomplete or incompatible"))
        }
    }

    fn structure_valid(&self) -> (b: bool)
        ensures
            b == range_shape_valid(*self),
    {
        if !str_eq(self.schema.as_str(), "hu-preflop-range-continuation-cache-v2") {
            return false;
        }
        if self.boards.len() == 0 || self.board_workers == 0 || self.history_keys.len() == 0 {
            return false;
        }
        if self.history_keys.len() != self.reach_keys.len() || !keys_listed(&self.history_keys, &self.reach_keys) {
            return false;
        }
        if !boards_distinct(&self.boards) {
            return false;
        }
        let mut i: usize = 0;
        while i < self.boards.len()
            invariant
                i <= self.boards@.len(),
                forall|x: int| 0 <= x < i ==> board_shape_valid(#[trigger] self.boards@[x], self.history_keys@),
            decreases self.boards.len() - i,
        {
            if !board_valid(&self.boards[i], &self.history_keys) {
                return false;
            }
            i += 1;
        }
        let total = orbit_sum(&self.boards);
        if total != self.covered_raw_flops as u128 {
            return false;
        }
        let complete = self.boards.len() == 1755 && self.covered_raw_flops == 22100;
        if self.complete_canonical_flop_enumeration != complete {
            return false;
        }
        if is_blank(self.policy_model_version.as_str()) {
            return false;
        }
        if !is_hex_digest(self.policy_sha256.as_str()) || !is_hex_digest(self.value_network_sha256.as_str()) {
            return false;
        }
        let evaluation_ok = match &self.evaluation_value_network_sha256 {
            Some(d) => is_hex_digest(d.as_str()),
            None => true,
        };
        if !evaluation_ok {
            return false;
        }
        let range_ok = match &self.range_policy_sha256 {
            Some(d) => str_eq(d.as_str(), self.policy_sha256.as_str()),
            None => false,
        };
        if !range_ok {
            return false;
        }
        self.resolver_iterations >= 2 && self.resolver_averaging_delay < self.resolver_iterations
            && self.resolver_threads > 0 && self.reach_values_valid && self.continuation_values_valid
            && self.parameters_valid
    }
}

/// A text that may be absent, by its characters.
pub open spec fn optional_text(o: Option<String>) -> Option<Seq<char>> {
    match o {
        Some(t) => Some(t@),
        None => None,
    }
}

/// The provenance that the shards of one range continuation cache share,
/// as far as it is not floating point: seed, workers, policy, resolver
/// schedule and digests, and the history keys of the cache and of its
/// leaf reach table.
pub open spec fn shards_compatible(a: RangeContinuationCacheShape, b: RangeContinuationCacheShape) -> bool {
    &&& a.seed == b.seed
    &&& a.board_workers == b.board_workers
    &&& a.policy_model_version@ == b.policy_model_version@
    &&& a.policy_sha256@ == b.policy_sha256@
    &&& a.value_network_sha256@ == b.value_network_sha256@
    &&& optional_text(a.evaluation_value_network_sha256) == optional_text(b.evaluation_value_network_sha256)
    &&& optional_text(a.range_policy_sha256) == optional_text(b.range_policy_sha256)
    &&& a.resolver_iterations == b.resolver_iterations
    &&& a.resolver_averaging_delay == b.resolver_averaging_delay
    &&& a.resolver_threads == b.resolver_threads
    &&& a.regret_matching_plus == b.regret_matching_plus
    &&& a.history_keys@ == b.history_keys@
    &&& a.reach_keys@ == b.reach_keys@
}

/// Why a shard cannot join a merge led by `first`, if it cannot: it fails
/// its own check, its game fails its check, or its provenance differs from
/// the first shard's (`same` says whether its floating-point provenance,
/// game and leaf reach table equal the first shard's).
pub open spec fn shard_error(
    first: RangeContinuationCacheShape,
    shard: RangeContinuationCacheShape,
    game: Result<(), String>,
    same: bool,
) -> Option<Seq<char>> {
    if !range_shape_valid(shard) {
        Some("range continuation cache is incomplete or incompatible"@)
    } else if game is Err {
        Some(game->Err_0@)
    } else if !(same && shards_compatible(first, shard)) {
        Some("range continuation cache shards have incompatible provenance"@)
    } else {
        None
    }
}

/// The error of the first of the first `n` shards that cannot join.
pub open spec fn first_shard_error(
    caches: Seq<RangeContinuationCacheShape>,
    games: Seq<Result<(), String>>,
    same: Seq<bool>,
    n: int,
) -> Option<Seq<char>>
    decreases n,
{
    if n <= 0 {
        None
    } else {
        match first_shard_error(caches, games, same, n - 1) {
            Some(e) => Some(e),
            None => shard_error(caches[0], caches[n - 1], games[n - 1], same[n - 1]),
        }
    }
}

/// The boards of the first `n` shards, shard after shard.
pub open spec fn shard_boards(caches: Seq<RangeContinuationCacheShape>, n: int) -> Seq<RangeContinuationBoardShape>
    decreases n,
{
    if n <= 0 {
        Seq::empty()
    } else {
        shard_boards(caches, n - 1) + caches[n - 1].boards@
    }
}

/// `m` is the merge of shards led by `first` whose boards are `boards`:
/// the boards in ascending order of flop, the raw flops they cover, the
/// enumeration called complete exactly for all canonical flops, and the
/// rest of the first shard's provenance.
pub open spec fn merged_range_cache(
    first: RangeContinuationCacheShape,
    boards: Seq<RangeContinuationBoardShape>,
    m: RangeContinuationCacheShape,
) -> bool {
    &&& m.schema@ == range_cache_schema()
    &&& boards_sorted(m.boards@)
    &&& m.boards@.to_multiset() == boards.to_multiset()
    &&& m.covered_raw_flops == orbit_total(m.boards@)
    &&& m.complete_canonical_flop_enumeration == (m.boards@.len() == 1755 && m.covered_raw_flops == 22100)
    &&& m.seed == first.seed
    &&& m.board_workers == first.board_workers
    &&& m.policy_model_version@ == first.policy_model_version@
    &&& m.policy_sha256@ == first.policy_sha256@
    &&& m.value_network_sha256@ == first.value_network_sha256@
    &&& optional_text(m.evaluation_value_network_sha256) == optional_text(first.evaluation_value_network_sha256)
    &&& optional_text(m.range_policy_sha256) == optional_text(first.range_policy_sha256)
    &&& m.resolver_iterations == first.resolver_iterations
    &&& m.resolver_averaging_delay == first.resolver_averaging_delay
    &&& m.resolver_threads == first.resolver_threads
    &&& m.regret_matching_plus == first.regret_matching_plus
    &&& m.history_keys@ == first.history_keys@
    &&& m.reach_keys@ == first.reach_keys@
    &&& m.reach_values_valid == first.reach_values_valid
    &&& m.continuation_values_valid == first.continuation_values_valid
    &&& m.parameters_valid == first.parameters_valid
}

/// `shard` was resolved under the provenance that `m` reports: the same
/// seed, workers, policy, resolver schedule, value networks and history
/// keys of the cache and of its leaf reach table.
pub open spec fn resolved_as_reported(shard: RangeContinuationCacheShape, m: RangeContinuationCacheShape) -> bool {
    &&& shard.seed == m.seed
    &&& shard.board_workers == m.board_workers
    &&& shard.policy_model_version@ == m.policy_model_version@
    &&& shard.policy_sha256@ == m.policy_sha256@
    &&& shard.value_network_sha256@ == m.value_network_sha256@
    &&& optional_text(shard.evaluation_value_network_sha256) == optional_text(m.evaluation_value_network_sha256)
    &&& optional_text(shard.range_policy_sha256) == optional_text(m.range_policy_sha256)
    &&& shard.resolver_iterations == m.resolver_iterations
    &&& shard.resolver_averaging_delay == m.resolver_averaging_delay
    &&& shard.resolver_threads == m.resolver_threads
    &&& shard.regret_matching_plus == m.regret_matching_plus
    &&& shard.history_keys@ == m.history_keys@
    &&& shard.reach_keys@ == m.reach_keys@
}

/// Shards that all pass the checks of a merge were all resolved under the
/// first shard's provenance, and each passes its own check.
pub proof fn law_joined_shards_share_provenance(
    caches: Seq<RangeContinuationCacheShape>,
    games: Seq<Result<(), String>>,
    same: Seq<bool>,
)
    requires
        caches.len() > 0,
        first_shard_error(caches, games, same, caches.len() as int) is None,
    ensures
        forall|j: int|
            0 <= j < caches.len() ==> resolved_as_reported(#[trigger] caches[j], caches[0]) && range_shape_valid(caches[j]),
{
    lemma_no_shard_error(caches, games, same, caches.len() as int);
}

proof fn lemma_no_shard_error(
    caches: Seq<RangeContinuationCacheShape>,
    games: Seq<Result<(), String>>,
    same: Seq<bool>,
    n: int,
)
    requires
        first_shard_error(caches, games, same, n) is None,
    ensures
        forall|j: int| 0 <= j < n ==> shard_error(caches[0], #[trigger] caches[j], games[j], same[j]) is None,
    decreases n,
{
    if n > 0 {
        lemma_no_shard_error(caches, games, same, n - 1);
    }
}

proof fn lemma_first_shard_error_stays(
    caches: Seq<RangeContinuationCacheShape>,
    games: Seq<Result<(), String>>,
    same: Seq<bool>,
    i: int,
    k: int,
)
    requires
        0 <= i < k,
        first_shard_error(caches, games, same, i + 1) is Some,
    ensures
        first_shard_error(caches, games, same, k) == first_shard_error(caches, games, same, i + 1),
    decreases k - i,
{
    if k > i + 1 {
        lemma_first_shard_error_stays(caches, games, same, i, k - 1);
    }
}

pub(crate) fn same_optional_text(a: &Option<String>, b: &Option<String>) -> (r: bool)
    ensures
        r == (optional_text(*a) == optional_text(*b)),
{
    match (a, b) {
        (Some(x), Some(y)) => str_eq(x.as_str(), y.as_str()),
        (None, None) => true,
        _ => false,
    }
}

pub(crate) fn same_keys(a: &Vec<u64>, b: &Vec<u64>) -> (r: bool)
    ensures
        r == (a@ == b@),
{
    if a.len() != b.len() {
        return false;
    }
    let mut i: usize = 0;
    while i < a.len()
        invariant
            a@.len() == b@.len(),
            i <= a@.len(),
            forall|x: int| 0 <= x < i ==> a@[x] == b@[x],
        decreases a.len() - i,
    {
        if a[i] != b[i] {
            return false;
        }
        i += 1;
    }
    proof {
        assert(a@ =~= b@);
    }
    true
}

fn compatible_shards(a: &RangeContinuationCacheShape, b: &RangeContinuationCacheShape) -> (r: bool)
    ensures
        r == shards_compatible(*a, *b),
{
    a.seed == b.seed && a.board_workers == b.board_workers
        && str_eq(a.policy_model_version.as_str(), b.policy_model_version.as_str())
        && str_eq(a.policy_sha256.as_str(), b.policy_sha256.as_str())
        && str_eq(a.value_network_sha256.as_str(), b.value_network_sha256.as_str())
        && same_optional_text(&a.evaluation_value_network_sha256, &b.evaluation_value_network_sha256)
        && same_optional_text(&a.range_policy_sha256, &b.range_policy_sha256)
        && a.resolver_iterations == b.resolver_iterations
        && a.resolver_averaging_delay == b.resolver_averaging_delay
        && a.resolver_threads == b.resolver_threads
        && a.regret_matching_plus == b.regret_matching_plus
        && same_keys(&a.history_keys, &b.history_keys)
        && same_keys(&a.reach_keys, &b.reach_keys)
}

/// Merges the shards of a range continuation cache. Refused without a
/// shard; then each shard in turn must pass its own check, its game
/// (`games`) must pass, and its provenance must equal the first shard's
/// (`same_provenance` holds the comparison of the floating-point part);
/// then no two shards may cover the same flop. The merge holds every board
/// in ascending order of flop, the raw flops they cover, and the first
/// shard's provenance, and passes the check itself.
pub fn merge_range_continuation_caches(
    caches: Vec<RangeContinuationCacheShape>,
    games: Vec<Result<(), String>>,
    same_provenance: Vec<bool>,
) -> (r: Result<RangeContinuationCacheShape, String>)
    requires
        games@.len() == caches@.len(),
        same_provenance@.len() == caches@.len(),
        shard_boards(caches@, caches@.len() as int).len() * 24 <= usize::MAX,
    ensures
        caches@.len() == 0 ==> (r matches Err(e) && e@ == "range continuation merge requires at least one cache"@),
        caches@.len() > 0 ==> ({
            let failure = first_shard_error(caches@, games@, same_provenance@, caches@.len() as int);
            let boards = shard_boards(caches@, caches@.len() as int);
            &&& failure matches Some(msg) ==> (r matches Err(e) && e@ == msg)
            &&& (failure is None && boards_overlap(boards)) ==> (r matches Err(e)
                && e@ == "range continuation cache shards overlap canonical boards"@)
            &&& (failure is None && !boards_overlap(boards)) ==> (r matches Ok(m) && merged_range_cache(caches@[0], boards, m)
                && range_shape_valid(m))
        }),
        r matches Ok(m) ==> forall|j: int| 0 <= j < caches@.len() ==> resolved_as_reported(#[trigger] caches@[j], m),
{
    broadcast use vstd::seq_lib::group_to_multiset_ensures;
    let ghost orig = caches@;
    let n = caches.len();
    if n == 0 {
        return Err(String::from_str("range continuation merge requires at least one cache"));
    }
    let mut i: usize = 0;
    while i < n
        invariant
            n == orig.len() == games@.len() == same_provenance@.len(),
            orig == caches@,
            i <= n,
            first_shard_error(orig, games@, same_provenance@, i as int) is None,
            forall|j: int|
                0 <= j < i ==> shard_error(orig[0], orig[j], #[trigger] games@[j], same_provenance@[j]) is None,
        decreases n - i,
    {
        let shard = &caches[i];
        let mut error: Option<String> = None;
        if !shard.structure_valid() {
            error = Some(String::from_str("range continuation cache is incomplete or incompatible"));
        } else {
            match &games[i] {
                Err(e) => {
                    error = Some(e.clone());
                },
                Ok(()) => {
                    if !(same_provenance[i] && compatible_shards(&caches[0], shard)) {
                        error = Some(String::from_str("range continuation cache shards have incompatible provenance"));
                    }
                },
            }
        }
        match error {
            Some(e) => {
                proof {
                    lemma_first_shard_error_stays(orig, games@, same_provenance@, i as int, n as int);
                }
                return Err(e);
            },
            None => {},
        }
        i += 1;
    }
    let mut rest = caches;
    let first = rest.remove(0);
    let RangeContinuationCacheShape {
        schema: _,
        seed,
        complete_canonical_flop_enumeration: _,
        covered_raw_flops: _,
        board_workers,
        policy_model_version,
        policy_sha256,
        value_network_sha256,
        evaluation_value_network_sha256,
        range_policy_sha256,
        resolver_iterations,
        resolver_averaging_delay,
        resolver_threads,
        regret_matching_plus,
        history_keys,
        reach_keys,
        boards,
        reach_values_valid,
        continuation_values_valid,
        parameters_valid,
    } = first;
    let mut all = boards;
    let mut taken: usize = 1;
    proof {
        assert(shard_error(orig[0], orig[0], games@[0], same_provenance@[0]) is None);
        assert(shard_boards(orig, 0) == Seq::<RangeContinuationBoardShape>::empty());
        assert(shard_boards(orig, 1) =~= orig[0].boards@);
        assert(rest@ =~= orig.skip(1));
    }
    while rest.len() > 0
        invariant
            n == orig.len() == games@.len() == same_provenance@.len(),
            1 <= taken <= n,
            taken + rest@.len() == n,
            rest@ == orig.skip(taken as int),
            all@ == shard_boards(orig, taken as int),
            all@.len() >= orig[0].boards@.len() > 0,
            history_keys@ == orig[0].history_keys@,
            forall|j: int|
                0 <= j < n ==> shard_error(orig[0], orig[j], #[trigger] games@[j], same_provenance@[j]) is None,
            forall|x: int| 0 <= x < all@.len() ==> board_shape_valid(#[trigger] all@[x], history_keys@),
        decreases rest.len(),
    {
        let shard = rest.remove(0);
        proof {
            assert(orig.skip(taken as int)[0] == orig[taken as int]);
            assert(shard == orig[taken as int]);
            assert(rest@ =~= orig.skip(taken as int + 1));
            assert(shard_error(orig[0], orig[taken as int], games@[taken as int], same_provenance@[taken as int]) is None);
        }
        let ghost before = all@;
        let mut more = shard.boards;
        all.append(&mut more);
        proof {
            assert forall|x: int| 0 <= x < all@.len() implies board_shape_valid(#[trigger] all@[x], history_keys@) by {
                if x < before.len() {
                    assert(all@[x] == before[x]);
                } else {
                    assert(all@[x] == shard.boards@[x - before.len()]);
                }
            }
        }
        taken += 1;
    }
    let ghost gathered = all@;
    let sorted = match sort_shard_boards(all) {
        Ok(s) => s,
        Err(e) => {
            return Err(e);
        },
    };
    proof {
        assert(sorted@.len() == gathered.len()) by {
            assert(sorted@.to_multiset().len() == gathered.to_multiset().len());
        }
        assert forall|x: int| 0 <= x < sorted@.len() implies board_shape_valid(#[trigger] sorted@[x], history_keys@) by {
            let b = sorted@[x];
            assert(sorted@.contains(b));
            assert(sorted@.to_multiset().count(b) > 0);
            assert(gathered.to_multiset().count(b) > 0);
            assert(gathered.contains(b));
            let y = choose|y: int| 0 <= y < gathered.len() && gathered[y] == b;
            assert(board_shape_valid(gathered[y], history_keys@));
        }
    }
    let total = orbit_sum(&sorted);
    let covered = total as usize;
    let complete = sorted.len() == 1755 && covered == 22100;
    let merged = RangeContinuationCacheShape {
        schema: String::from_str("hu-preflop-range-continuation-cache-v2"),
        seed,
        complete_canonical_flop_enumeration: complete,
        covered_raw_flops: covered,
        board_workers,
        policy_model_version,
        policy_sha256,
        value_network_sha256,
        evaluation_value_network_sha256,
        range_policy_sha256,
        resolver_iterations,
        resolver_averaging_delay,
        resolver_threads,
        regret_matching_plus,
        history_keys,
        reach_keys,
        boards: sorted,
        reach_values_valid,
        continuation_values_valid,
        parameters_valid,
    };
    proof {
        assert(shard_error(orig[0], orig[0], games@[0], same_provenance@[0]) is None);
        assert(range_shape_valid(orig[0]));
        assert(range_shape_valid(merged));
        law_joined_shards_share_provenance(orig, games@, same_provenance@);
    }
    Ok(merged)
}

} // verus!
