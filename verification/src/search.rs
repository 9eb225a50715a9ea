//! The search engine: breadth-first search over the implicit state graph,
//! with a FIFO frontier, a visited set, and path reconstruction.

use vstd::prelude::*;

use std::collections::HashSet;

use crate::puzzle::{
    actions_spec, lemma_apply_wf, lemma_goal_unique, lemma_possible_actions_sound, Puzzle,
    PuzzleV, Swipe,
};

verus! {

broadcast use vstd::std_specs::hash::group_hash_axioms;

/// Codes produced by `encode` are eleven base-16 digits.
const CODE_BOUND: u64 = 0x1000_0000_0000;

/// What one run of the solver reports.
#[derive(Debug)]
pub enum Outcome {
    /// The input state already satisfies the goal test; no swipe is needed.
    AlreadyCorrect,
    /// The frontier was exhausted without reaching the goal.
    NoSolution,
    /// A solution: each swipe together with the state it produces, in
    /// order from the first move to the solved grid.
    Solved(Vec<(Swipe, Puzzle)>),
}

/// Every swipe in `path` is legal in the state it is applied to, starting
/// from `v`.
pub open spec fn path_ok(v: PuzzleV, path: Seq<Swipe>) -> bool
    decreases path.len(),
{
    path.len() == 0 || (v.legal(path[0]) && path_ok(v.apply(path[0]), path.skip(1)))
}

/// The state reached by applying all of `path` from `v`.
pub open spec fn path_end(v: PuzzleV, path: Seq<Swipe>) -> PuzzleV
    decreases path.len(),
{
    if path.len() == 0 {
        v
    } else {
        path_end(v.apply(path[0]), path.skip(1))
    }
}

/// Each step's swipe is legal in the state before it, and each step's state
/// is the one the swipe produces, starting from `init`.
pub open spec fn steps_chained(init: PuzzleV, steps: Seq<(Swipe, Puzzle)>) -> bool {
    forall|i: int|
        0 <= i < steps.len() ==> {
            let cur = #[trigger] steps[i];
            let prev = if i == 0 {
                init
            } else {
                steps[i - 1].1@
            };
            prev.legal(cur.0) && cur.1@ == prev.apply(cur.0)
        }
}

/// Extending a legal path by one legal swipe keeps it legal and moves its
/// end by that swipe.
proof fn lemma_path_push(v: PuzzleV, path: Seq<Swipe>, s: Swipe)
    requires
        path_ok(v, path),
        path_end(v, path).legal(s),
    ensures
        path_ok(v, path.push(s)),
        path_end(v, path.push(s)) == path_end(v, path).apply(s),
    decreases path.len(),
{
    if path.len() == 0 {
        assert(path.push(s)[0] == s);
        assert(path.push(s).skip(1) =~= Seq::<Swipe>::empty());
        assert(path_end(v, path) == v);
        assert(path_ok(v.apply(s), path.push(s).skip(1)));
        assert(path_end(v, path.push(s)) == path_end(v.apply(s), path.push(s).skip(1)));
    } else {
        assert(path.push(s)[0] == path[0]);
        lemma_path_push(v.apply(path[0]), path.skip(1), s);
        assert(path.skip(1).push(s) =~= path.push(s).skip(1));
        assert(path_ok(v.apply(path[0]), path.push(s).skip(1)));
        assert(path_end(v, path.push(s)) == path_end(v.apply(path[0]), path.push(s).skip(1)));
        assert(path_end(v, path) == path_end(v.apply(path[0]), path.skip(1)));
    }
}

/// A non-empty legal path splits into its front part and one final legal
/// swipe from that part's end.
proof fn lemma_path_decompose(v: PuzzleV, path: Seq<Swipe>)
    requires
        path_ok(v, path),
        path.len() > 0,
    ensures
        path_ok(v, path.drop_last()),
        path_end(v, path.drop_last()).legal(path.last()),
        path_end(v, path) == path_end(v, path.drop_last()).apply(path.last()),
    decreases path.len(),
{
    if path.len() == 1 {
        assert(path.drop_last() =~= Seq::<Swipe>::empty());
        assert(path.skip(1) =~= Seq::<Swipe>::empty());
        assert(path.last() == path[0]);
        assert(path_end(v, path) == path_end(v.apply(path[0]), path.skip(1)));
        assert(path_end(v.apply(path[0]), path.skip(1)) == v.apply(path[0]));
        assert(path_end(v, path.drop_last()) == v);
    } else {
        lemma_path_decompose(v.apply(path[0]), path.skip(1));
        assert(path.skip(1).drop_last() =~= path.drop_last().skip(1));
        assert(path.drop_last()[0] == path[0]);
        assert(path.skip(1).last() == path.last());
        assert(path_ok(v, path.drop_last()));
        assert(path_end(v, path.drop_last()) == path_end(
            v.apply(path[0]),
            path.drop_last().skip(1),
        ));
        assert(path_end(v, path) == path_end(v.apply(path[0]), path.skip(1)));
    }
}

/// The end of a legal path from a well-formed state is well-formed.
proof fn lemma_path_end_wf(v: PuzzleV, path: Seq<Swipe>)
    requires
        v.wf(),
        path_ok(v, path),
    ensures
        path_end(v, path).wf(),
    decreases path.len(),
{
    if path.len() > 0 {
        lemma_apply_wf(v, path[0]);
        lemma_path_end_wf(v.apply(path[0]), path.skip(1));
    }
}

/// The base-16 digits of a state, most significant first: the nine labels
/// in row-major order, then the blank's column and row.
pub open spec fn encode_spec(v: PuzzleV) -> int {
    let d0 = v.grid[0] as int;
    let d1 = d0 * 16 + v.grid[1] as int;
    let d2 = d1 * 16 + v.grid[2] as int;
    let d3 = d2 * 16 + v.grid[3] as int;
    let d4 = d3 * 16 + v.grid[4] as int;
    let d5 = d4 * 16 + v.grid[5] as int;
    let d6 = d5 * 16 + v.grid[6] as int;
    let d7 = d6 * 16 + v.grid[7] as int;
    let d8 = d7 * 16 + v.grid[8] as int;
    let d9 = d8 * 16 + v.bx;
    d9 * 16 + v.by
}

/// A base-16 digit is recovered by one division and one remainder.
proof fn lemma_digit(q: int, d: int)
    requires
        0 <= d < 16,
    ensures
        (q * 16 + d) % 16 == d,
        (q * 16 + d) / 16 == q,
{
    vstd::arithmetic::div_mod::lemma_fundamental_div_mod_converse(q * 16 + d, 16, q, d);
}

/// Two well-formed states with the same code are the same state: every
/// digit of the code is below 16, so the digits are recovered uniquely.
proof fn lemma_encode_injective(a: PuzzleV, b: PuzzleV)
    requires
        a.wf(),
        b.wf(),
        encode_spec(a) == encode_spec(b),
    ensures
        a == b,
{
    let a0 = a.grid[0] as int;
    let a1 = a0 * 16 + a.grid[1] as int;
    let a2 = a1 * 16 + a.grid[2] as int;
    let a3 = a2 * 16 + a.grid[3] as int;
    let a4 = a3 * 16 + a.grid[4] as int;
    let a5 = a4 * 16 + a.grid[5] as int;
    let a6 = a5 * 16 + a.grid[6] as int;
    let a7 = a6 * 16 + a.grid[7] as int;
    let a8 = a7 * 16 + a.grid[8] as int;
    let a9 = a8 * 16 + a.bx;
    let b0 = b.grid[0] as int;
    let b1 = b0 * 16 + b.grid[1] as int;
    let b2 = b1 * 16 + b.grid[2] as int;
    let b3 = b2 * 16 + b.grid[3] as int;
    let b4 = b3 * 16 + b.grid[4] as int;
    let b5 = b4 * 16 + b.grid[5] as int;
    let b6 = b5 * 16 + b.grid[6] as int;
    let b7 = b6 * 16 + b.grid[7] as int;
    let b8 = b7 * 16 + b.grid[8] as int;
    let b9 = b8 * 16 + b.bx;
    lemma_digit(a9, a.by);
    lemma_digit(b9, b.by);
    assert(a.by == b.by && a9 == b9);
    lemma_digit(a8, a.bx);
    lemma_digit(b8, b.bx);
    assert(a.bx == b.bx && a8 == b8);
    lemma_digit(a7, a.grid[8] as int);
    lemma_digit(b7, b.grid[8] as int);
    assert(a.grid[8] == b.grid[8] && a7 == b7);
    lemma_digit(a6, a.grid[7] as int);
    lemma_digit(b6, b.grid[7] as int);
    assert(a.grid[7] == b.grid[7] && a6 == b6);
    lemma_digit(a5, a.grid[6] as int);
    lemma_digit(b5, b.grid[6] as int);
    assert(a.grid[6] == b.grid[6] && a5 == b5);
    lemma_digit(a4, a.grid[5] as int);
    lemma_digit(b4, b.grid[5] as int);
    assert(a.grid[5] == b.grid[5] && a4 == b4);
    lemma_digit(a3, a.grid[4] as int);
    lemma_digit(b3, b.grid[4] as int);
    assert(a.grid[4] == b.grid[4] && a3 == b3);
    lemma_digit(a2, a.grid[3] as int);
    lemma_digit(b2, b.grid[3] as int);
    assert(a.grid[3] == b.grid[3] && a2 == b2);
    lemma_digit(a1, a.grid[2] as int);
    lemma_digit(b1, b.grid[2] as int);
    assert(a.grid[2] == b.grid[2] && a1 == b1);
    lemma_digit(a0, a.grid[1] as int);
    lemma_digit(b0, b.grid[1] as int);
    assert(a.grid[1] == b.grid[1] && a0 == b0);
    assert(a.grid[0] == b.grid[0]);
    assert(a.grid =~= b.grid);
    assert(a =~= b);
}

/// No legal path escapes a set of states that contains the start and is
/// closed under legal swipes.
proof fn lemma_closed_set_blocks(init: PuzzleV, closed: Set<PuzzleV>, path: Seq<Swipe>)
    requires
        closed.contains(init),
        forall|s: PuzzleV, a: Swipe|
            #![trigger closed.contains(s), s.legal(a)]
            closed.contains(s) && s.legal(a) ==> closed.contains(s.apply(a)),
        path_ok(init, path),
    ensures
        closed.contains(path_end(init, path)),
    decreases path.len(),
{
    if path.len() > 0 {
        lemma_closed_set_blocks(init.apply(path[0]), closed, path.skip(1));
    }
}

/// Packs a well-formed state into one machine word, for the hashed visited
/// and seen sets.
fn encode(p: &Puzzle) -> (k: u64)
    requires
        p.wf(),
    ensures
        k as int == encode_spec(p@),
        k < CODE_BOUND,
{
    proof {
        assert forall|r: int, c: int| 0 <= r < 3 && 0 <= c < 3 implies p.tiles@[r]@[c] < 9 by {
            assert(p@.grid[3 * r + c] == p.tiles@[r]@[c]);
        }
    }
    let mut k: u64 = p.tiles[0][0] as u64;
    k = k * 16 + p.tiles[0][1] as u64;
    k = k * 16 + p.tiles[0][2] as u64;
    k = k * 16 + p.tiles[1][0] as u64;
    k = k * 16 + p.tiles[1][1] as u64;
    k = k * 16 + p.tiles[1][2] as u64;
    k = k * 16 + p.tiles[2][0] as u64;
    k = k * 16 + p.tiles[2][1] as u64;
    k = k * 16 + p.tiles[2][2] as u64;
    k = k * 16 + p.empty_tile.x as u64;
    k = k * 16 + p.empty_tile.y as u64;
    k
}

/// Copies a sequence of swipes.
fn clone_swipes(path: &Vec<Swipe>) -> (r: Vec<Swipe>)
    ensures
        r@ == path@,
{
    let mut r: Vec<Swipe> = Vec::with_capacity(path.len());
    let mut i: usize = 0;
    while i < path.len()
        invariant
            i <= path@.len(),
            r@ == path@.take(i as int),
        decreases path@.len() - i,
    {
        let s = path[i];
        r.push(s);
        proof {
            assert(path@.take(i + 1) =~= path@.take(i as int).push(s));
        }
        i += 1;
    }
    proof {
        assert(path@.take(path@.len() as int) =~= path@);
    }
    r
}

/// Replays a legal path from the initial state, emitting each swipe with
/// the state it produces.
#[verifier::rlimit(100)]
fn replay(initial: &Puzzle, path: &Vec<Swipe>) -> (steps: Vec<(Swipe, Puzzle)>)
    requires
        initial.wf(),
        path_ok(initial@, path@),
    ensures
        steps@.len() == path@.len(),
        steps_chained(initial@, steps@),
        steps@.len() > 0 ==> steps@.last().1@ == path_end(initial@, path@),
        forall|i: int| 0 <= i < steps@.len() ==> (#[trigger] steps@[i]).1.wf(),
{
    let mut steps: Vec<(Swipe, Puzzle)> = Vec::new();
    let mut cur: Puzzle = initial.duplicate();
    let mut i: usize = 0;
    proof {
        assert(path@.skip(0) =~= path@);
    }
    while i < path.len()
        invariant
            initial.wf(),
            i <= path@.len(),
            steps@.len() == i,
            cur.wf(),
            i == 0 ==> cur@ == initial@,
            i > 0 ==> cur@ == steps@[i - 1].1@,
            path_ok(cur@, path@.skip(i as int)),
            path_end(cur@, path@.skip(i as int)) == path_end(initial@, path@),
            steps_chained(initial@, steps@),
            forall|j: int| 0 <= j < steps@.len() ==> (#[trigger] steps@[j]).1.wf(),
        decreases path@.len() - i,
    {
        let a = path[i];
        proof {
            assert(path@.skip(i as int)[0] == path@[i as int]);
        }
        let next = cur.transitional_state_with_action(a);
        let stored = next.duplicate();
        let ghost prior = steps@;
        steps.push((a, stored));
        proof {
            assert(path@.skip(i as int).skip(1) =~= path@.skip(i + 1));
            assert forall|j: int|
                0 <= j < steps@.len() implies {
                let e = #[trigger] steps@[j];
                let prev = if j == 0 {
                    initial@
                } else {
                    steps@[j - 1].1@
                };
                prev.legal(e.0) && e.1@ == prev.apply(e.0)
            } by {
                if j < prior.len() {
                    assert(steps@[j] == prior[j]);
                    if j > 0 {
                        assert(steps@[j - 1] == prior[j - 1]);
                    }
                } else {
                    assert(steps@[j] == (a, stored));
                    if j > 0 {
                        assert(steps@[j - 1] == prior[j - 1]);
                    }
                }
            }
        }
        cur = next;
        i += 1;
    }
    proof {
        assert(path@.skip(path@.len() as int) =~= Seq::<Swipe>::empty());
    }
    steps
}

/// Breadth-first search from `initial`. Reports `AlreadyCorrect` exactly
/// when the input is already the goal. Otherwise it either returns a
/// shortest solution — a chain of legal swipes whose states lead from
/// `initial` to a goal state, and no sequence of legal swipes that reaches
/// the goal is shorter — or `NoSolution`, which is only reported when no
/// sequence of legal swipes whatsoever reaches a goal state.
#[verifier::rlimit(100)]
pub fn solve(initial: &Puzzle) -> (r: Outcome)
    requires
        initial.wf(),
    ensures
        (r is AlreadyCorrect) <==> initial@.is_goal(),
        (r is NoSolution) ==> !initial@.is_goal(),
        (r is NoSolution) ==> forall|path: Seq<Swipe>|
            path_ok(initial@, path) ==> !(#[trigger] path_end(initial@, path)).is_goal(),
        (r matches Outcome::Solved(steps) ==> {
            &&& !initial@.is_goal()
            &&& steps@.len() >= 1
            &&& steps_chained(initial@, steps@)
            &&& steps@.last().1@.is_goal()
            &&& forall|i: int| 0 <= i < steps@.len() ==> (#[trigger] steps@[i]).1.wf()
            &&& forall|q: Seq<Swipe>|
                path_ok(initial@, q) && (#[trigger] path_end(initial@, q)).is_goal() ==> q.len()
                    >= steps@.len()
        }),
{
    if initial.is_correct() {
        return Outcome::AlreadyCorrect;
    }
    // `frontier` with `head` is the FIFO queue; each entry carries the path
    // that discovered it. `visited` holds the codes of expanded states,
    // `seen` the codes of every discovered state, so a state is enqueued at
    // most once.
    let mut frontier: Vec<(Puzzle, Vec<Swipe>)> = Vec::new();
    let mut head: usize = 0;
    let mut visited: HashSet<u64> = HashSet::new();
    let mut seen: HashSet<u64> = HashSet::new();
    let ghost mut seen_codes: Set<int> = Set::empty();
    // The states whose codes sit in `seen`, and the states already expanded.
    let ghost mut seen_states: Set<PuzzleV> = Set::empty();
    let ghost mut expanded: Set<PuzzleV> = Set::empty();

    let k0 = encode(initial);
    let _ = seen.insert(k0);
    proof {
        vstd::set::axiom_set_insert_len(seen_codes, k0 as int);
        seen_codes = seen_codes.insert(k0 as int);
        seen_states = seen_states.insert(initial@);
        vstd::set_lib::lemma_int_range(0, CODE_BOUND as int);
        vstd::set_lib::lemma_len_subset(
            seen_codes,
            vstd::set_lib::set_int_range(0, CODE_BOUND as int),
        );
    }
    frontier.push((initial.duplicate(), Vec::new()));
    proof {
        assert(frontier@[0].0@ == initial@);
    }

    while head < frontier.len()
        invariant
            initial.wf(),
            !initial@.is_goal(),
            head <= frontier@.len(),
            forall|i: int|
                head <= i < frontier@.len() ==> {
                    let e = #[trigger] frontier@[i];
                    e.0.wf() && path_ok(initial@, e.1@) && path_end(initial@, e.1@) == e.0@
                        && seen_states.contains(e.0@)
                },
            seen_codes.finite(),
            seen_codes.len() <= CODE_BOUND as int,
            forall|k: int| #[trigger] seen_codes.contains(k) ==> 0 <= k < CODE_BOUND,
            forall|k: u64| #![trigger seen@.contains(k)] seen@.contains(k) <==> seen_codes.contains(k as int),
            seen_states.contains(initial@),
            forall|s: PuzzleV| #[trigger] seen_states.contains(s) ==> s.wf()
                && 0 <= encode_spec(s) < CODE_BOUND && seen@.contains(encode_spec(s) as u64),
            forall|k: u64| #![trigger seen@.contains(k)] seen@.contains(k) ==> exists|s: PuzzleV|
                #[trigger] seen_states.contains(s) && encode_spec(s) == k as int,
            forall|k: u64| #[trigger] visited@.contains(k) ==> seen@.contains(k),
            forall|s: PuzzleV, a: Swipe|
                #![trigger expanded.contains(s), s.legal(a)]
                expanded.contains(s) && s.legal(a) ==> seen_states.contains(s.apply(a)),
            forall|s: PuzzleV| #[trigger] expanded.contains(s) ==> !s.is_goal(),
            forall|s: PuzzleV| #[trigger] seen_states.contains(s) ==> expanded.contains(s)
                || exists|i: int| head <= i < frontier@.len() && (#[trigger] frontier@[i]).0@ == s,
            forall|i: int, j: int|
                head <= i <= j < frontier@.len() ==> (#[trigger] frontier@[i]).1@.len() <= (
                #[trigger] frontier@[j]).1@.len(),
            forall|i: int, j: int|
                head <= i < frontier@.len() && head <= j < frontier@.len() ==> (
                #[trigger] frontier@[j]).1@.len() <= (#[trigger] frontier@[i]).1@.len() + 1,
            head < frontier@.len() ==> forall|q: Seq<Swipe>|
                path_ok(initial@, q) && q.len() < frontier@[head as int].1@.len()
                    ==> expanded.contains(#[trigger] path_end(initial@, q)),
            forall|i: int, q: Seq<Swipe>|
                #![trigger frontier@[i], path_end(initial@, q)]
                head <= i < frontier@.len() && path_ok(initial@, q) && path_end(initial@, q)
                    == frontier@[i].0@ ==> frontier@[i].1@.len() <= q.len(),
        decreases CODE_BOUND - seen_codes.len(), frontier@.len() - head,
    {
        let ghost seen0 = seen_codes.len();
        let ghost flen0 = frontier@.len();
        let p = frontier[head].0.duplicate();
        let path = clone_swipes(&frontier[head].1);
        let ghost d = path@.len() as int;
        head += 1;
        proof {
            // Pin the popped entry's state and path, so that the layer
            // facts over the frontier can be instantiated at it below.
            assert(path@ == frontier@[head - 1].1@);
            assert(p@ == frontier@[head - 1].0@);
        }

        if p.is_correct() {
            proof {
                if path@.len() == 0 {
                    assert(path_end(initial@, path@) == initial@);
                }
                assert forall|q: Seq<Swipe>|
                    path_ok(initial@, q) && (#[trigger] path_end(initial@, q)).is_goal()
                        implies q.len() >= d by {
                    lemma_path_end_wf(initial@, q);
                    lemma_goal_unique(path_end(initial@, q), p@);
                }
            }
            let steps = replay(initial, &path);
            return Outcome::Solved(steps);
        }

        proof {
            assert forall|s: PuzzleV| #[trigger] seen_states.contains(s) implies expanded.contains(
                s,
            ) || s == p@ || exists|i: int|
                head <= i < frontier@.len() && (#[trigger] frontier@[i]).0@ == s by {
                if !expanded.contains(s) {
                    let i = choose|i: int|
                        head - 1 <= i < frontier@.len() && (#[trigger] frontier@[i]).0@ == s;
                    if i == head - 1 {
                        assert(s == p@);
                    } else {
                        assert(head <= i < frontier@.len() && frontier@[i].0@ == s);
                    }
                }
            }
        }

        let kp = encode(&p);
        let _ = visited.insert(kp);
        proof {
            assert(seen@.contains(kp));
            assert(frontier@[head - 1].1@.len() == d);
            assert forall|i: int|
                head <= i < frontier@.len() implies d <= (#[trigger] frontier@[i]).1@.len() <= d
                + 1 by {
                assert(frontier@[head - 1].1@.len() <= frontier@[i].1@.len());
                assert(frontier@[i].1@.len() <= frontier@[head - 1].1@.len() + 1);
            }
        }

        let actions = p.possible_actions();
        let mut ai: usize = 0;
        while ai < actions.len()
            invariant
                initial.wf(),
                !initial@.is_goal(),
                head <= frontier@.len(),
                forall|i: int|
                    head <= i < frontier@.len() ==> {
                        let e = #[trigger] frontier@[i];
                        e.0.wf() && path_ok(initial@, e.1@) && path_end(initial@, e.1@) == e.0@
                            && seen_states.contains(e.0@)
                    },
                seen_codes.finite(),
                seen_codes.len() <= CODE_BOUND as int,
                forall|k: int| #[trigger] seen_codes.contains(k) ==> 0 <= k < CODE_BOUND,
                forall|k: u64| #![trigger seen@.contains(k)] seen@.contains(k) <==> seen_codes.contains(k as int),
                seen_states.contains(initial@),
                forall|s: PuzzleV| #[trigger] seen_states.contains(s) ==> s.wf()
                    && 0 <= encode_spec(s) < CODE_BOUND && seen@.contains(encode_spec(s) as u64),
                forall|k: u64| #![trigger seen@.contains(k)] seen@.contains(k) ==> exists|s: PuzzleV|
                    #[trigger] seen_states.contains(s) && encode_spec(s) == k as int,
                forall|k: u64| #[trigger] visited@.contains(k) ==> seen@.contains(k),
                forall|s: PuzzleV, a: Swipe|
                    #![trigger expanded.contains(s), s.legal(a)]
                    expanded.contains(s) && s.legal(a) ==> seen_states.contains(s.apply(a)),
                forall|s: PuzzleV| #[trigger] expanded.contains(s) ==> !s.is_goal(),
                forall|s: PuzzleV| #[trigger] seen_states.contains(s) ==> expanded.contains(s)
                    || s == p@ || exists|i: int|
                    head <= i < frontier@.len() && (#[trigger] frontier@[i]).0@ == s,
                ai <= actions@.len(),
                p.wf(),
                !p@.is_goal(),
                seen_states.contains(p@),
                path_ok(initial@, path@),
                path_end(initial@, path@) == p@,
                actions@ == actions_spec(p@),
                forall|i: int| 0 <= i < actions@.len() ==> p@.legal(#[trigger] actions@[i]),
                forall|j: int| 0 <= j < ai ==> seen_states.contains(
                    p@.apply(#[trigger] actions@[j]),
                ),
                d == path@.len(),
                forall|q: Seq<Swipe>|
                    path_ok(initial@, q) && q.len() < d ==> expanded.contains(
                        #[trigger] path_end(initial@, q),
                    ),
                forall|i: int|
                    head <= i < frontier@.len() ==> d <= (#[trigger] frontier@[i]).1@.len() <= d
                        + 1,
                forall|i: int, j: int|
                    head <= i <= j < frontier@.len() ==> (#[trigger] frontier@[i]).1@.len() <= (
                    #[trigger] frontier@[j]).1@.len(),
                forall|i: int, q: Seq<Swipe>|
                    #![trigger frontier@[i], path_end(initial@, q)]
                    head <= i < frontier@.len() && path_ok(initial@, q) && path_end(initial@, q)
                        == frontier@[i].0@ ==> frontier@[i].1@.len() <= q.len(),
                seen_codes.len() >= seen0,
                frontier@.len() - seen_codes.len() == flen0 - seen0,
            decreases actions@.len() - ai,
        {
            let action = actions[ai];
            let next = p.transitional_state_with_action(action);
            let ghost nv = next@;
            let kn = encode(&next);
            let already_expanded = visited.contains(&kn);
            let already_discovered = seen.contains(&kn);
            if !already_expanded && !already_discovered {
                let ghost old_seen_view = seen@;
                let ghost old_states = seen_states;
                let _ = seen.insert(kn);
                proof {
                    vstd::set::axiom_set_insert_len(seen_codes, kn as int);
                    seen_codes = seen_codes.insert(kn as int);
                    seen_states = seen_states.insert(nv);
                    vstd::set_lib::lemma_int_range(0, CODE_BOUND as int);
                    vstd::set_lib::lemma_len_subset(
                        seen_codes,
                        vstd::set_lib::set_int_range(0, CODE_BOUND as int),
                    );
                    assert((encode_spec(nv) as u64) == kn);
                    assert forall|k: u64| #![trigger seen@.contains(k)] seen@.contains(k)
                        implies exists|s: PuzzleV|
                        #[trigger] seen_states.contains(s) && encode_spec(s) == k as int by {
                        if k == kn {
                            assert(seen_states.contains(nv) && encode_spec(nv) == k as int);
                        } else {
                            let s = choose|s: PuzzleV|
                                #[trigger] old_states.contains(s) && encode_spec(s) == k as int;
                            assert(seen_states.contains(s) && encode_spec(s) == k as int);
                        }
                    }
                }
                let mut path2 = clone_swipes(&path);
                path2.push(action);
                proof {
                    lemma_path_push(initial@, path@, action);
                }
                let ghost old_frontier = frontier@;
                frontier.push((next, path2));
                proof {
                    assert forall|s: PuzzleV| #[trigger] seen_states.contains(s) implies
                        expanded.contains(s) || s == p@ || exists|i: int|
                        head <= i < frontier@.len() && (#[trigger] frontier@[i]).0@ == s by {
                        if !expanded.contains(s) && s != p@ {
                            if s == nv {
                                assert(frontier@[old_frontier.len() as int].0@ == s);
                            } else {
                                let i = choose|i: int|
                                    head <= i < old_frontier.len() && (#[trigger] old_frontier[i]).0@
                                        == s;
                                assert(frontier@[i] == old_frontier[i]);
                                assert(frontier@[i].0@ == s);
                            }
                        }
                    }
                    // The fresh state cannot be reached by any path of d
                    // swipes or fewer, so the new entry's length d + 1 is a
                    // lower bound on its distance.
                    assert(!old_states.contains(nv));
                    assert(frontier@[old_frontier.len() as int].1@ == path2@);
                    assert(path2@.len() == d + 1);
                    assert forall|q: Seq<Swipe>|
                        path_ok(initial@, q) && path_end(initial@, q) == nv implies d + 1
                        <= q.len() by {
                        if q.len() == 0 {
                            assert(path_end(initial@, q) == initial@);
                            assert(old_states.contains(initial@));
                        } else if q.len() <= d {
                            lemma_path_decompose(initial@, q);
                            let q2 = q.drop_last();
                            assert(q2.len() < d);
                            assert(expanded.contains(path_end(initial@, q2)));
                            assert(old_states.contains(path_end(initial@, q2).apply(q.last())));
                        }
                    }
                    assert forall|i: int, q: Seq<Swipe>|
                        #![trigger frontier@[i], path_end(initial@, q)]
                        head <= i < frontier@.len() && path_ok(initial@, q) && path_end(
                            initial@,
                            q,
                        ) == frontier@[i].0@ implies frontier@[i].1@.len() <= q.len() by {
                        if i < old_frontier.len() {
                            assert(frontier@[i] == old_frontier[i]);
                        } else {
                            assert(frontier@[i].0@ == nv);
                        }
                    }
                    assert forall|i: int|
                        head <= i < frontier@.len() implies d <= (
                        #[trigger] frontier@[i]).1@.len() <= d + 1 by {
                        if i < old_frontier.len() {
                            assert(frontier@[i] == old_frontier[i]);
                        }
                    }
                    assert forall|i: int, j: int|
                        head <= i <= j < frontier@.len() implies (
                        #[trigger] frontier@[i]).1@.len() <= (#[trigger] frontier@[j]).1@.len() by {
                        if i < old_frontier.len() {
                            assert(frontier@[i] == old_frontier[i]);
                        }
                        if j < old_frontier.len() {
                            assert(frontier@[j] == old_frontier[j]);
                        }
                    }
                }
            } else {
                proof {
                    assert(seen@.contains(kn));
                    let s = choose|s: PuzzleV|
                        #[trigger] seen_states.contains(s) && encode_spec(s) == kn as int;
                    lemma_encode_injective(s, nv);
                    assert(seen_states.contains(nv));
                }
            }
            ai += 1;
        }

        proof {
            lemma_possible_actions_sound(p@);
            assert forall|a: Swipe| p@.legal(a) implies seen_states.contains(
                #[trigger] p@.apply(a),
            ) by {
                assert(actions_spec(p@).contains(a));
                let j = choose|j: int|
                    0 <= j < actions_spec(p@).len() && actions_spec(p@)[j] == a;
                assert(seen_states.contains(p@.apply(actions@[j])));
            }
            expanded = expanded.insert(p@);
            // Restore the head-layer property: everything strictly shorter
            // than the new head entry's path is expanded. When the head
            // moves into the next layer, the states one layer down are all
            // expanded, and no frontier entry can stand for a state at the
            // old depth any more.
            if (head as int) < frontier@.len() {
                let lh = frontier@[head as int].1@.len() as int;
                assert(d <= lh <= d + 1);
                assert forall|q: Seq<Swipe>|
                    path_ok(initial@, q) && q.len() < lh implies expanded.contains(
                    #[trigger] path_end(initial@, q)) by {
                    if q.len() >= d {
                        assert(q.len() == d && lh == d + 1);
                        if q.len() == 0 {
                            assert(path_end(initial@, q) == initial@);
                            assert(path_end(initial@, path@) == initial@);
                        } else {
                            lemma_path_decompose(initial@, q);
                            let q2 = q.drop_last();
                            assert(q2.len() < d);
                            assert(expanded.contains(path_end(initial@, q2)));
                            assert(seen_states.contains(
                                path_end(initial@, q2).apply(q.last()),
                            ));
                            if !expanded.contains(path_end(initial@, q)) {
                                let i = choose|i: int|
                                    head <= i < frontier@.len() && (#[trigger] frontier@[i]).0@
                                        == path_end(initial@, q);
                                assert(frontier@[i].1@.len() <= q.len());
                                assert(frontier@[head as int].1@.len() <= frontier@[i].1@.len());
                                assert(false);
                            }
                        }
                    }
                }
            }
        }
    }
    proof {
        assert forall|s: PuzzleV| #[trigger] seen_states.contains(s) implies expanded.contains(
            s,
        ) by {
            if !expanded.contains(s) {
                let i = choose|i: int|
                    head <= i < frontier@.len() && (#[trigger] frontier@[i]).0@ == s;
                assert(false);
            }
        }
        assert forall|path: Seq<Swipe>| path_ok(initial@, path) implies !(
        #[trigger] path_end(initial@, path)).is_goal() by {
            lemma_closed_set_blocks(initial@, expanded, path);
        }
    }
    Outcome::NoSolution
}

} // verus!
