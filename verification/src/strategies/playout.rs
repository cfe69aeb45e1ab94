//! The playout engine of Monte Carlo tree search: selection among the
//! children of a position, the descent to the end of the game, the deltas
//! that the descent leaves for every position it passed, and the choice of
//! the move to play once the statistics are in.

use crate::game::{Game, ValidMove};
use crate::rng::next_index;
use crate::stats::Stats;
use crate::table::{is_chain, StatsTable};
use rand::XorShiftRng;
use vstd::prelude::*;

verus! {

/// The upper-confidence score of a child. Its operands are handed over as
/// counts; the score is compared as an unsigned number, larger being
/// better. Both visit counts are at least one, so an implementation may
/// divide by them.
pub trait UctScore {
    fn score(&self, wins: usize, visits: usize, parent_visits: usize) -> (key: u64)
        requires
            visits >= 1,
            parent_visits >= 1,
    ;
}

/// A read-only view of the statistics filed so far. A view is exact when
/// what it yields for a key depends on the view alone; a view into a table
/// that another party keeps writing to is not.
pub trait Snapshot {
    /// Whether reading is a function of the view alone.
    spec fn exact(&self) -> bool;

    /// What an exact view holds for `key`.
    spec fn view_stats(&self, key: u128) -> Option<Stats>;

    fn stats(&self, key: u128) -> (s: Option<Stats>)
        ensures
            self.exact() ==> s == self.view_stats(key),
    ;
}

/// `child` arises from `parent` by one of the moves that `parent` lists.
pub open spec fn is_child<G: Game>(parent: G, child: G) -> bool {
    exists|j: int|
        0 <= j < parent.spec_moves().len() && child == parent.spec_apply(
            #[trigger] parent.spec_moves()[j],
        )
}

/// `path` is a descent from `start` to a position that lists no move, each
/// step made by a listed move.
pub open spec fn is_descent<G: Game>(start: G, path: Seq<G>) -> bool {
    &&& path.len() >= 1
    &&& path[0] == start
    &&& forall|i: int| 0 <= i < path.len() ==> (#[trigger] path[i]).wf()
    &&& forall|i: int| 0 <= i < path.len() - 1 ==> #[trigger] is_child(path[i], path[i + 1])
    &&& path.last().spec_moves().len() == 0
}

/// What a playout that ended with `winner` means at `g`: a tie when nobody
/// won, a win when the side to act at `g` won, a loss otherwise.
pub open spec fn delta_at<G: Game>(g: G, winner: Option<G::Agent>) -> Stats {
    Stats::spec_delta(
        match winner {
            None => None,
            Some(w) => Some(w == g.spec_to_act()),
        },
    )
}

/// The deltas of one descent, the last position first: one per position,
/// filed under its key.
pub open spec fn backpropagation<G: Game>(path: Seq<G>, winner: Option<G::Agent>) -> Seq<
    (u128, Stats),
> {
    Seq::new(
        path.len(),
        |k: int| (path[path.len() - 1 - k].spec_key(), delta_at(path[path.len() - 1 - k], winner)),
    )
}

/// The deltas of the playout `path`: its backpropagation for the winner at
/// its end.
pub open spec fn playout_deltas<G: Game>(path: Seq<G>) -> Seq<(u128, Stats)> {
    backpropagation(path, path.last().spec_winner())
}

/// The deltas of the playouts `paths`, one playout after the other.
pub open spec fn deltas_of<G: Game>(paths: Seq<Seq<G>>) -> Seq<(u128, Stats)>
    decreases paths.len(),
{
    if paths.len() == 0 {
        Seq::empty()
    } else {
        deltas_of(paths.drop_last()) + playout_deltas(paths.last())
    }
}

/// The deltas of the playouts `paths`, one batch for each playout.
pub open spec fn batches_of<G: Game>(paths: Seq<Seq<G>>) -> Seq<Seq<(u128, Stats)>> {
    Seq::new(paths.len(), |k: int| playout_deltas(paths[k]))
}

/// `paths` are the playouts of one round of `i` playouts: descents from
/// the position under study, `i` of them, and none where no position is
/// under study.
pub open spec fn is_round<G: Game>(current: Option<G>, paths: Seq<Seq<G>>, i: nat) -> bool {
    match current {
        Some(game) => paths.len() == i && forall|k: int|
            0 <= k < paths.len() ==> is_descent(game, #[trigger] paths[k]),
        None => paths.len() == 0,
    }
}

/// `after` is the table `before` after a round of `i` playouts from the
/// position under study, each read from the table as it stood and then
/// merged into it, or left out where the table could take no more:
/// `paths` are the playouts and `tables` the states of the table, from
/// `before` to `after`.
pub open spec fn is_search<G: Game>(
    current: Option<G>,
    paths: Seq<Seq<G>>,
    i: nat,
    tables: Seq<StatsTable>,
    before: StatsTable,
    after: StatsTable,
) -> bool {
    &&& is_round(current, paths, i)
    &&& is_chain(tables, batches_of(paths))
    &&& tables[0] == before
    &&& tables.last() == after
}

/// A search is determined by its playouts: the same playouts, merged one
/// by one into two tables that agree, leave two tables that agree. So
/// after the same playouts the cache of a single worker agrees with the
/// table of a search that works on one table.
pub proof fn lemma_search_is_determined<G: Game>(
    current: Option<G>,
    paths: Seq<Seq<G>>,
    i: nat,
    first: Seq<StatsTable>,
    second: Seq<StatsTable>,
    before_a: StatsTable,
    after_a: StatsTable,
    before_b: StatsTable,
    after_b: StatsTable,
)
    requires
        is_search(current, paths, i, first, before_a, after_a),
        is_search(current, paths, i, second, before_b, after_b),
        crate::table::same_table(before_a, before_b),
    ensures
        crate::table::same_table(after_a, after_b),
{
    lemma_chains_agree(first, second, batches_of(paths), paths.len() as int);
}

/// Two chains over the same batches that agree at the start agree at
/// every state.
pub proof fn lemma_chains_agree(
    first: Seq<StatsTable>,
    second: Seq<StatsTable>,
    batches: Seq<Seq<(u128, Stats)>>,
    k: int,
)
    requires
        is_chain(first, batches),
        is_chain(second, batches),
        crate::table::same_table(first[0], second[0]),
        0 <= k <= batches.len(),
    ensures
        crate::table::same_table(first[k], second[k]),
    decreases k,
{
    if k > 0 {
        lemma_chains_agree(first, second, batches, k - 1);
        assert(crate::table::is_link(first, batches, k - 1));
        assert(crate::table::is_link(second, batches, k - 1));
        crate::table::lemma_merge_is_determined(
            first[k - 1],
            second[k - 1],
            batches[k - 1],
            first[k],
            second[k],
        );
    }
}

/// One more playout, merged or refused, extends a search by one.
pub proof fn lemma_search_step<G: Game>(
    game: G,
    paths: Seq<Seq<G>>,
    tables: Seq<StatsTable>,
    path: Seq<G>,
    next: StatsTable,
)
    requires
        is_chain(tables, batches_of(paths)),
        forall|k: int| 0 <= k < paths.len() ==> is_descent(game, #[trigger] paths[k]),
        is_descent(game, path),
        crate::table::merged_or_refused(tables.last(), playout_deltas(path), next),
    ensures
        is_chain(tables.push(next), batches_of(paths.push(path))),
        forall|k: int|
            0 <= k < paths.push(path).len() ==> is_descent(game, #[trigger] paths.push(path)[k]),
        deltas_of(paths.push(path)) == deltas_of(paths) + playout_deltas(path),
        tables.push(next)[0] == tables[0],
        tables.push(next).last() == next,
{
    let longer = paths.push(path);
    let states = tables.push(next);
    assert(longer.drop_last() =~= paths);
    assert forall|k: int| 0 <= k < longer.len() implies is_descent(game, #[trigger] longer[k]) by {
        if k < paths.len() {
            assert(longer[k] == paths[k]);
        }
    }
    assert forall|k: int| 0 <= k < batches_of(longer).len() implies #[trigger] crate::table::is_link(
        states,
        batches_of(longer),
        k,
    ) by {
        if k < paths.len() {
            assert(crate::table::is_link(tables, batches_of(paths), k));
            assert(batches_of(longer)[k] == batches_of(paths)[k]);
            assert(states[k] == tables[k] && states[k + 1] == tables[k + 1]);
        } else {
            assert(states[k] == tables.last());
            assert(states[k + 1] == next);
            assert(batches_of(longer)[k] == playout_deltas(path));
        }
    }
}

/// The count that stands for the wins of a child in its score: the child's
/// own wins where the same side moves at parent and child, its losses where
/// the sides differ.
pub open spec fn spec_uct_wins(child: Stats, same_mover: bool) -> usize {
    if same_mover {
        child.wins
    } else {
        child.losses
    }
}

#[verifier::when_used_as_spec(spec_uct_wins)]
pub fn uct_wins(child: Stats, same_mover: bool) -> (w: usize)
    ensures
        w == spec_uct_wins(child, same_mover),
{
    if same_mover {
        child.wins
    } else {
        child.losses
    }
}

/// A visit count as a denominator: a count of zero is taken as one.
pub open spec fn spec_denominator(visits: usize) -> usize {
    if visits == 0 {
        1
    } else {
        visits
    }
}

#[verifier::when_used_as_spec(spec_denominator)]
pub fn denominator(visits: usize) -> (d: usize)
    ensures
        d == spec_denominator(visits),
        d >= 1,
{
    if visits == 0 {
        1
    } else {
        visits
    }
}

/// Every child has statistics.
pub open spec fn spec_fully_expanded(found: Seq<Option<Stats>>) -> bool {
    forall|k: int| 0 <= k < found.len() ==> (#[trigger] found[k]) is Some
}

pub fn fully_expanded(found: &Vec<Option<Stats>>) -> (all: bool)
    ensures
        all == spec_fully_expanded(found@),
{
    let mut k: usize = 0;
    while k < found.len()
        invariant
            k <= found@.len(),
            forall|i: int| 0 <= i < k ==> (#[trigger] found@[i]) is Some,
        decreases found@.len() - k,
    {
        if found[k].is_none() {
            return false;
        }
        k += 1;
    }
    true
}

/// `i` is the last position of `keys` that holds their maximum.
pub open spec fn is_last_max(keys: Seq<u64>, i: int) -> bool {
    &&& 0 <= i < keys.len()
    &&& forall|k: int| 0 <= k < keys.len() ==> keys[k] <= keys[i]
    &&& forall|k: int| i < k < keys.len() ==> keys[k] < keys[i]
}

/// The position of the largest key; of several that are largest, the last.
pub fn argmax_last(keys: &Vec<u64>) -> (best: usize)
    requires
        keys@.len() > 0,
    ensures
        is_last_max(keys@, best as int),
{
    let mut best: usize = 0;
    let mut k: usize = 1;
    while k < keys.len()
        invariant
            1 <= k <= keys@.len(),
            best < k,
            forall|i: int| 0 <= i < k ==> keys@[i] <= keys@[best as int],
            forall|i: int| best < i < k ==> keys@[i] < keys@[best as int],
        decreases keys@.len() - k,
    {
        if keys[k] >= keys[best] {
            best = k;
        }
        k += 1;
    }
    best
}

/// The child that a playout descends into, given what the snapshot holds
/// for each child and, where it holds something for all of them, their
/// scores: a child without statistics makes the choice fall on child
/// `random % n`; otherwise the best score wins, the last of several.
pub fn choose_child(found: &Vec<Option<Stats>>, keys: &Vec<u64>, random: usize) -> (pick: usize)
    requires
        found@.len() > 0,
        spec_fully_expanded(found@) ==> keys@.len() == found@.len(),
    ensures
        pick < found@.len(),
        !spec_fully_expanded(found@) ==> pick == random as int % found@.len() as int,
        spec_fully_expanded(found@) ==> is_last_max(keys@, pick as int),
{
    if fully_expanded(found) {
        argmax_last(keys)
    } else {
        random % found.len()
    }
}

/// Picks the child of a position into which a playout descends. `choices`
/// are the checked moves of the position, `acting` is its side to act and
/// `parent_visits` its visit count. Where the snapshot lacks one of the
/// children the generator picks any child; otherwise the child with the
/// best score is taken. The result is always one of the children.
pub fn select<G: Game, T: Snapshot, S: UctScore>(
    table: &T,
    scorer: &S,
    rng: &mut XorShiftRng,
    choices: Vec<ValidMove<G>>,
    parent_visits: usize,
    acting: G::Agent,
) -> (next: G)
    requires
        choices@.len() > 0,
        forall|i: int| 0 <= i < choices@.len() ==> (#[trigger] choices@[i]).wf(),
    ensures
        next.wf(),
        exists|i: int|
            0 <= i < choices@.len() && next == (#[trigger] choices@[i]).valid_for.spec_apply(
                choices@[i].valid_move,
            ),
{
    let ghost listed = choices@;
    let n: usize = choices.len();
    let random: usize = next_index(rng);
    let mut children: Vec<G> = Vec::new();
    let mut found: Vec<Option<Stats>> = Vec::new();
    for choice in it: choices
        invariant
            it.seq() == listed,
            forall|i: int| 0 <= i < listed.len() ==> (#[trigger] listed[i]).wf(),
            children@.len() == it.index(),
            found@.len() == it.index(),
            forall|k: int|
                0 <= k < it.index() ==> (#[trigger] children@[k]).wf() && children@[k]
                    == listed[k].valid_for.spec_apply(listed[k].valid_move),
    {
        let child: G = choice.apply();
        let seen = table.stats(child.key());
        found.push(seen);
        children.push(child);
    }
    let mut keys: Vec<u64> = Vec::new();
    if fully_expanded(&found) {
        let acting_id: u32 = children[0].agent_id(&acting);
        let mut k: usize = 0;
        while k < n
            invariant
                k <= n,
                n == found@.len(),
                n == children@.len(),
                keys@.len() == k,
                spec_fully_expanded(found@),
                forall|i: int| 0 <= i < n ==> (#[trigger] children@[i]).wf(),
            decreases n - k,
        {
            let seen: Stats = found[k].unwrap();
            let mover = children[k].to_act();
            let same_mover: bool = children[k].agent_id(&mover) == acting_id;
            let key: u64 = scorer.score(
                uct_wins(seen, same_mover),
                denominator(seen.visits),
                denominator(parent_visits),
            );
            keys.push(key);
            k += 1;
        }
    }
    let pick: usize = choose_child(&found, &keys, random);
    children[pick]
}

/// One playout from `game` against the snapshot `table`: descends by
/// `select` until a position lists no move, takes that position's winner as
/// the outcome, and appends to `stats_output` one delta for every position
/// passed, the last position first. Which descent is taken depends on the
/// generator, the scores and the snapshot; whichever it is, the deltas are
/// exactly its backpropagation.
pub fn simulate<G: Game, T: Snapshot, S: UctScore>(
    table: &T,
    scorer: &S,
    rng: &mut XorShiftRng,
    game: &G,
    stats_output: &mut Vec<(u128, Stats)>,
) -> (winner: Option<G::Agent>)
    requires
        game.wf(),
    ensures
        exists|path: Seq<G>| #[trigger]
            is_descent(*game, path) && winner == path.last().spec_winner()
                && final(stats_output)@ == old(stats_output)@ + backpropagation(path, winner),
    decreases game.plies_left(),
{
    let ghost before = stats_output@;
    let acting = game.to_act();
    let nexts = game.possible_moves();
    let ghost path: Seq<G>;
    let winner = if nexts.len() == 0 {
        proof {
            path = seq![*game];
        }
        game.winner()
    } else {
        let parent_visits: usize = match table.stats(game.key()) {
            Some(s) => s.visits,
            None => 1,
        };
        proof {
            game.lemma_state_laws();
        }
        let ghost listed = nexts@;
        let g: G = select(table, scorer, rng, nexts, parent_visits, acting);
        proof {
            let i = choose|i: int|
                0 <= i < listed.len() && g == (#[trigger] listed[i]).valid_for.spec_apply(
                    listed[i].valid_move,
                );
            assert(g == game.spec_apply(game.spec_moves()[i]));
            assert(is_child(*game, g));
            game.lemma_apply(game.spec_moves()[i]);
        }
        let w = simulate(table, scorer, rng, &g, stats_output);
        proof {
            let rest = choose|rest: Seq<G>| #[trigger]
                is_descent(g, rest) && w == rest.last().spec_winner() && stats_output@ == before
                    + backpropagation(rest, w);
            path = seq![*game] + rest;
            assert forall|i: int| 0 <= i < path.len() - 1 implies #[trigger] is_child(
                path[i],
                path[i + 1],
            ) by {
                if i > 0 {
                    let j = i - 1;
                    assert(is_child(rest[j], rest[j + 1]));
                    assert(path[i] == rest[j] && path[i + 1] == rest[j + 1]);
                }
            }
            assert(is_descent(*game, path));
            assert(backpropagation(path, w) =~= backpropagation(rest, w).push(
                (game.spec_key(), delta_at(*game, w)),
            ));
        }
        w
    };
    let same: Option<bool> = match winner {
        None => None,
        Some(w) => Some(game.agent_id(&w) == game.agent_id(&acting)),
    };
    proof {
        game.lemma_state_laws();
    }
    let stats_delta: Stats = Stats::delta(same);
    stats_output.push((game.key(), stats_delta));
    proof {
        assert(stats_delta == delta_at(*game, winner));
        assert(backpropagation(path, winner).last() == (game.spec_key(), stats_delta));
        assert(stats_output@ =~= before + backpropagation(path, winner));
        assert(is_descent(*game, path) && winner == path.last().spec_winner());
    }
    winner
}

/// Why no move could be chosen.
#[derive(Clone, Copy, Debug, PartialEq, Eq, Structural)]
pub enum DecideError {
    /// The position lists no move.
    NoLegalMove,
}

/// No child has statistics.
pub open spec fn none_known(visits: Seq<Option<usize>>) -> bool {
    forall|k: int| 0 <= k < visits.len() ==> (#[trigger] visits[k]) is None
}

/// Child `b` has the most visits of the children with statistics, and of
/// those that have as many, none has a smaller move.
pub open spec fn is_best<G: Game>(moves: Seq<G::Move>, visits: Seq<Option<usize>>, b: int) -> bool {
    &&& 0 <= b < moves.len()
    &&& visits[b] is Some
    &&& forall|k: int|
        0 <= k < moves.len() && (#[trigger] visits[k]) is Some ==> visits[k]->0 <= visits[b]->0
    &&& forall|k: int|
        0 <= k < moves.len() && #[trigger] visits[k] == visits[b] ==> !G::spec_move_lt(
            moves[k],
            moves[b],
        )
}

/// The best child is one move: two children that are both best are reached
/// by the same move.
pub proof fn lemma_best_is_unique<G: Game>(
    moves: Seq<G::Move>,
    visits: Seq<Option<usize>>,
    a: int,
    b: int,
)
    requires
        moves.len() == visits.len(),
        is_best::<G>(moves, visits, a),
        is_best::<G>(moves, visits, b),
    ensures
        moves[a] == moves[b],
        visits[a] == visits[b],
{
    assert(visits[a]->0 <= visits[b]->0);
    assert(visits[b]->0 <= visits[a]->0);
    assert(visits[a] == visits[b]);
    G::lemma_move_order(moves[a], moves[b], moves[a]);
}

/// The index of the move to play, given for each child its visit count
/// where the snapshot has one: the most visited child, and among equally
/// visited ones the smallest move. Where no child has statistics, child
/// `random % n` is taken.
pub fn best_index<G: Game>(moves: &Vec<G::Move>, visits: &Vec<Option<usize>>, random: usize) -> (b:
    usize)
    requires
        moves@.len() == visits@.len(),
        moves@.len() > 0,
    ensures
        b < moves@.len(),
        none_known(visits@) ==> b == random as int % moves@.len() as int,
        !none_known(visits@) ==> is_best::<G>(moves@, visits@, b as int),
{
    let n: usize = moves.len();
    let mut best: Option<usize> = None;
    let mut k: usize = 0;
    while k < n
        invariant
            k <= n,
            n == moves@.len(),
            n == visits@.len(),
            best is None ==> forall|i: int| 0 <= i < k ==> (#[trigger] visits@[i]) is None,
            best matches Some(b) ==> b < k && visits@[b as int] is Some && (forall|i: int|
                0 <= i < k && (#[trigger] visits@[i]) is Some ==> visits@[i]->0 <= visits@[b as int]->0)
                && (forall|i: int|
                0 <= i < k && #[trigger] visits@[i] == visits@[b as int] ==> !G::spec_move_lt(
                    moves@[i],
                    moves@[b as int],
                )),
        decreases n - k,
    {
        match visits[k] {
            None => {},
            Some(v) => {
                match best {
                    None => {
                        proof {
                            G::lemma_move_order(moves@[k as int], moves@[k as int], moves@[k as int]);
                        }
                        best = Some(k);
                    },
                    Some(b) => {
                        let top: usize = visits[b].unwrap();
                        if v > top {
                            proof {
                                G::lemma_move_order(
                                    moves@[k as int],
                                    moves@[k as int],
                                    moves@[k as int],
                                );
                            }
                            best = Some(k);
                        } else if v == top && G::move_lt(&moves[k], &moves[b]) {
                            proof {
                                assert forall|i: int|
                                    0 <= i < k + 1 && #[trigger] visits@[i] == visits@[k as int]
                                    implies !G::spec_move_lt(moves@[i], moves@[k as int]) by {
                                    G::lemma_move_order(moves@[i], moves@[k as int], moves@[b as int]);
                                    G::lemma_move_order(
                                        moves@[k as int],
                                        moves@[k as int],
                                        moves@[k as int],
                                    );
                                }
                            }
                            best = Some(k);
                        }
                    },
                }
            },
        }
        k += 1;
    }
    match best {
        Some(b) => {
            proof {
                assert(!none_known(visits@)) by {
                    assert(visits@[b as int] is Some);
                }
            }
            b
        },
        None => random % n,
    }
}

/// What an exact view holds of the children of `game`: for each listed
/// move the visits of the position it leads to, where the view has a
/// record of it.
pub open spec fn child_visits<G: Game, T: Snapshot>(table: T, game: G) -> Seq<Option<usize>> {
    Seq::new(
        game.spec_moves().len(),
        |k: int|
            match table.view_stats(game.spec_apply(game.spec_moves()[k]).spec_key()) {
                Some(s) => Some(s.visits),
                None => None,
            },
    )
}

/// `m` is the move to play, given the visits of the children: the move at
/// `random % n` where no child has statistics, the best child otherwise.
pub open spec fn is_choice<G: Game>(
    moves: Seq<G::Move>,
    visits: Seq<Option<usize>>,
    random: usize,
    m: G::Move,
) -> bool {
    exists|b: int|
        0 <= b < moves.len() && m == #[trigger] moves[b] && (if none_known(visits) {
            b == random as int % moves.len() as int
        } else {
            is_best::<G>(moves, visits, b)
        })
}

/// Chooses the move to play in `game` from the snapshot `table`: the move
/// whose child position has the most visits, the smallest such move where
/// several have as many. Where the snapshot knows none of the children,
/// the move is the one that `random` points at. Fails exactly when the
/// position lists no move; whatever the snapshot and `random` hold, a move
/// that is returned is listed and valid, and a position with one move
/// yields that move. For an exact view the move is the choice that the
/// visits of the children make.
pub fn decide_from<G: Game, T: Snapshot>(table: &T, game: &G, random: usize) -> (r: Result<
    G::Move,
    DecideError,
>) where G::Move: Copy
    requires
        game.wf(),
    ensures
        r is Err <==> game.spec_moves().len() == 0,
        r matches Ok(m) ==> game.spec_moves().contains(m) && game.spec_move_valid(m),
        game.spec_moves().len() == 1 ==> r == Ok::<G::Move, DecideError>(game.spec_moves()[0]),
        table.exact() ==> (r matches Ok(m) ==> is_choice::<G>(
            game.spec_moves(),
            child_visits(*table, *game),
            random,
            m,
        )),
{
    let nexts = game.possible_moves();
    if nexts.len() == 0 {
        return Err(DecideError::NoLegalMove);
    }
    proof {
        game.lemma_state_laws();
    }
    let ghost listed = nexts@;
    let mut moves: Vec<G::Move> = Vec::new();
    let mut visits: Vec<Option<usize>> = Vec::new();
    for choice in it: nexts
        invariant
            it.seq() == listed,
            game.wf(),
            listed.len() == game.spec_moves().len(),
            game.spec_winner() is None,
            forall|i: int|
                0 <= i < listed.len() ==> (#[trigger] listed[i]).valid_move
                    == game.spec_moves()[i] && listed[i].valid_for == *game,
            forall|i: int|
                0 <= i < game.spec_moves().len() ==> game.spec_move_valid(
                    #[trigger] game.spec_moves()[i],
                ),
            moves@.len() == it.index(),
            visits@.len() == it.index(),
            forall|i: int| 0 <= i < it.index() ==> #[trigger] moves@[i] == game.spec_moves()[i],
            table.exact() ==> forall|i: int|
                0 <= i < it.index() ==> #[trigger] visits@[i] == child_visits(*table, *game)[i],
    {
        let m: G::Move = choice.valid_move;
        proof {
            game.lemma_apply(m);
        }
        let child: G = choice.apply();
        let seen = table.stats(child.key());
        moves.push(m);
        visits.push(
            match seen {
                Some(s) => Some(s.visits),
                None => None,
            },
        );
    }
    let b: usize = best_index::<G>(&moves, &visits, random);
    proof {
        assert(moves@[b as int] == game.spec_moves()[b as int]);
        assert(moves@ =~= game.spec_moves());
        if table.exact() {
            assert(visits@ =~= child_visits(*table, *game));
        }
    }
    Ok(moves[b])
}

/// The deltas of a descent are well-formed and hold one visit for each
/// position of the descent.
pub proof fn lemma_backpropagation<G: Game>(path: Seq<G>, winner: Option<G::Agent>)
    ensures
        crate::table::batch_wf(backpropagation(path, winner)),
        crate::table::total_visits(backpropagation(path, winner)) == path.len(),
    decreases path.len(),
{
    let all = backpropagation(path, winner);
    if path.len() > 0 {
        let rest = path.subrange(1, path.len() as int);
        lemma_backpropagation(rest, winner);
        assert(all.drop_last() =~= backpropagation(rest, winner));
    }
}

} // verus!
