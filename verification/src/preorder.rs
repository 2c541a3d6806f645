//! The depth-first pre-order on direction strings that `PathWalker`
//! traverses, and how one `next` step relates to it.
//!
//! A traversal with pruning visits exactly the non-empty strings, up to the
//! depth bound, none of whose proper non-empty prefixes was pruned
//! (`visited_by`). `lemma_step_succ` shows that a single walker step moves
//! from a visited string to the very next visited string in pre-order.

use vstd::prelude::*;
use crate::hexpos::{
    box_fits, dir_index, lemma_paths_determine_directions, path_from, spec_bump, spec_dir_succ,
    walker_step, Direction, Pos,
};

verus! {

/// `a` is a (not necessarily proper) prefix of `b`.
pub open spec fn is_prefix(a: Seq<Direction>, b: Seq<Direction>) -> bool {
    a.len() <= b.len() && b.take(a.len() as int) == a
}

/// `a` and `b` agree before `k` and `a` takes the earlier branch at `k`.
pub open spec fn lt_at(a: Seq<Direction>, b: Seq<Direction>, k: int) -> bool {
    &&& 0 <= k < a.len()
    &&& k < b.len()
    &&& a.take(k) == b.take(k)
    &&& dir_index(a[k]) < dir_index(b[k])
}

/// `a` comes strictly before `b` in depth-first pre-order: either `a` is a
/// proper ancestor of `b`, or `a` branches off earlier.
pub open spec fn pre_lt(a: Seq<Direction>, b: Seq<Direction>) -> bool {
    (is_prefix(a, b) && a.len() < b.len()) || exists|k: int| #[trigger] lt_at(a, b, k)
}

/// The strings a traversal with pruning predicate `pruned` and depth bound
/// `depth` visits: non-empty, within the bound, and no proper non-empty
/// prefix pruned.
pub open spec fn visited_by(
    pruned: spec_fn(Seq<Direction>) -> bool,
    depth: nat,
    s: Seq<Direction>,
) -> bool {
    &&& 1 <= s.len() <= depth
    &&& forall|k: int| 1 <= k < s.len() ==> !pruned(#[trigger] s.take(k))
}

/// Pre-order is irreflexive.
pub proof fn lemma_pre_irrefl(a: Seq<Direction>)
    ensures
        !pre_lt(a, a),
{
    assert(forall|k: int| !lt_at(a, a, k));
}

/// Any two direction strings are equal or ordered by pre-order.
pub proof fn lemma_pre_total(a: Seq<Direction>, b: Seq<Direction>)
    ensures
        a == b || pre_lt(a, b) || pre_lt(b, a),
    decreases a.len(),
{
    if a.len() == 0 {
        if b.len() == 0 {
            assert(a =~= b);
        } else {
            assert(b.take(0) =~= a);
            assert(is_prefix(a, b));
        }
    } else if b.len() == 0 {
        assert(a.take(0) =~= b);
        assert(is_prefix(b, a));
    } else if a[0] != b[0] {
        assert(a.take(0) =~= b.take(0));
        if dir_index(a[0]) < dir_index(b[0]) {
            assert(lt_at(a, b, 0));
        } else {
            assert(dir_index(b[0]) < dir_index(a[0]));
            assert(lt_at(b, a, 0));
        }
    } else {
        let a1 = a.skip(1);
        let b1 = b.skip(1);
        lemma_pre_total(a1, b1);
        if a1 == b1 {
            assert(a1.len() == b1.len());
            assert(a.len() == b.len());
            assert forall|i: int| 0 <= i < a.len() implies a[i] == #[trigger] b[i] by {
                if i > 0 {
                    assert(a[i] == a1[i - 1]);
                    assert(b[i] == b1[i - 1]);
                }
            }
            assert(a =~= b);
        } else if pre_lt(a1, b1) {
            lemma_pre_lift(a1, b1, a, b);
        } else {
            lemma_pre_lift(b1, a1, b, a);
        }
    }
}

/// Prepending the same first direction preserves pre-order.
proof fn lemma_pre_lift(a1: Seq<Direction>, b1: Seq<Direction>, a: Seq<Direction>, b: Seq<Direction>)
    requires
        pre_lt(a1, b1),
        a.len() == a1.len() + 1,
        b.len() == b1.len() + 1,
        a.skip(1) == a1,
        b.skip(1) == b1,
        a[0] == b[0],
    ensures
        pre_lt(a, b),
{
    if is_prefix(a1, b1) && a1.len() < b1.len() {
        assert(b.take(a.len() as int) =~= a) by {
            assert(forall|i: int|
                1 <= i < a.len() ==> b[i] == b1[i - 1] && a[i] == a1[i - 1]);
            assert(forall|i: int|
                0 <= i < a1.len() ==> b1[i] == #[trigger] b1.take(a1.len() as int)[i]);
        }
        assert(is_prefix(a, b));
    } else {
        let k = choose|k: int| lt_at(a1, b1, k);
        assert forall|i: int| 0 <= i < k + 1 implies a[i] == #[trigger] b[i] by {
            if i > 0 {
                assert(a[i] == a1[i - 1]);
                assert(b[i] == b1[i - 1]);
                assert(a1.take(k)[i - 1] == a1[i - 1]);
                assert(b1.take(k)[i - 1] == b1[i - 1]);
            }
        }
        assert(a.take(k + 1) =~= b.take(k + 1));
        assert(a[k + 1] == a1[k] && b[k + 1] == b1[k]);
        assert(lt_at(a, b, k + 1));
    }
}

/// Pre-order is transitive.
pub proof fn lemma_pre_trans(a: Seq<Direction>, b: Seq<Direction>, c: Seq<Direction>)
    requires
        pre_lt(a, b),
        pre_lt(b, c),
    ensures
        pre_lt(a, c),
{
    if is_prefix(a, b) && a.len() < b.len() {
        if is_prefix(b, c) && b.len() < c.len() {
            assert(c.take(a.len() as int) =~= a) by {
                assert(forall|i: int|
                    0 <= i < b.len() ==> c[i] == #[trigger] b[i]) by {
                    assert(forall|i: int|
                        0 <= i < b.len() ==> c.take(b.len() as int)[i] == c[i]);
                }
                assert(forall|i: int| 0 <= i < a.len() ==> b[i] == #[trigger] a[i]) by {
                    assert(forall|i: int|
                        0 <= i < a.len() ==> b.take(a.len() as int)[i] == b[i]);
                }
            }
            assert(is_prefix(a, c));
        } else {
            let k = choose|k: int| lt_at(b, c, k);
            if k < a.len() {
                assert(lt_at(a, c, k)) by {
                    assert(forall|i: int| 0 <= i < a.len() ==> b[i] == #[trigger] a[i]) by {
                        assert(forall|i: int|
                            0 <= i < a.len() ==> b.take(a.len() as int)[i] == b[i]);
                    }
                    assert(a.take(k) =~= c.take(k)) by {
                        assert(forall|i: int|
                            0 <= i < k ==> b[i] == #[trigger] b.take(k)[i] && c[i] == c.take(k)[i]);
                    }
                }
            } else {
                assert(c.take(a.len() as int) =~= a) by {
                    assert(forall|i: int|
                        0 <= i < k ==> b[i] == #[trigger] b.take(k)[i] && c[i] == c.take(k)[i]);
                    assert(forall|i: int| 0 <= i < a.len() ==> b[i] == #[trigger] a[i]) by {
                        assert(forall|i: int|
                            0 <= i < a.len() ==> b.take(a.len() as int)[i] == b[i]);
                    }
                }
                assert(a.len() < c.len());
                assert(is_prefix(a, c));
            }
        }
    } else {
        let k1 = choose|k: int| lt_at(a, b, k);
        if is_prefix(b, c) && b.len() < c.len() {
            assert(lt_at(a, c, k1)) by {
                assert(forall|i: int| 0 <= i < b.len() ==> c[i] == #[trigger] b[i]) by {
                    assert(forall|i: int|
                        0 <= i < b.len() ==> c.take(b.len() as int)[i] == c[i]);
                }
                assert(a.take(k1) =~= c.take(k1)) by {
                    assert(forall|i: int|
                        0 <= i < k1 ==> a[i] == #[trigger] a.take(k1)[i] && b[i] == b.take(k1)[i]);
                }
            }
        } else {
            let k2 = choose|k: int| lt_at(b, c, k);
            let k = if k1 <= k2 { k1 } else { k2 };
            assert forall|i: int| 0 <= i < k implies a[i] == #[trigger] c[i] by {
                assert(a.take(k1)[i] == a[i]);
                assert(b.take(k1)[i] == b[i]);
                assert(b.take(k2)[i] == b[i]);
                assert(c.take(k2)[i] == c[i]);
            }
            assert(a.take(k) =~= c.take(k));
            if k1 < k2 {
                assert(b.take(k2)[k1] == b[k1]);
                assert(c.take(k2)[k1] == c[k1]);
                assert(dir_index(a[k]) < dir_index(c[k]));
            } else if k2 < k1 {
                assert(a.take(k1)[k2] == a[k2]);
                assert(b.take(k1)[k2] == b[k2]);
                assert(dir_index(a[k]) < dir_index(c[k]));
            }
            assert(lt_at(a, c, k));
        }
    }
}

/// Every direction's index stays within the six slots, and a successor,
/// when it exists, sits one slot later.
proof fn lemma_dir_index_facts()
    ensures
        forall|d: Direction| 0 <= #[trigger] dir_index(d) <= 5,
        forall|d: Direction| #[trigger] spec_dir_succ(d) is None <==> dir_index(d) == 5,
        forall|d: Direction|
            #[trigger] spec_dir_succ(d) is Some ==> dir_index(spec_dir_succ(d).unwrap())
                == dir_index(d) + 1,
{
    assert forall|d: Direction| 0 <= #[trigger] dir_index(d) <= 5 by {
        match d {
            Direction::North => {}
            Direction::NorthEast => {}
            Direction::SouthEast => {}
            Direction::South => {}
            Direction::SouthWest => {}
            Direction::NorthWest => {}
        }
    }
    assert forall|d: Direction| #[trigger] spec_dir_succ(d) is None <==> dir_index(d) == 5 by {
        match d {
            Direction::North => {}
            Direction::NorthEast => {}
            Direction::SouthEast => {}
            Direction::South => {}
            Direction::SouthWest => {}
            Direction::NorthWest => {}
        }
    }
    assert forall|d: Direction|
        #[trigger] spec_dir_succ(d) is Some implies dir_index(spec_dir_succ(d).unwrap())
        == dir_index(d) + 1 by {
        match d {
            Direction::North => {}
            Direction::NorthEast => {}
            Direction::SouthEast => {}
            Direction::South => {}
            Direction::SouthWest => {}
            Direction::NorthWest => {}
        }
    }
}

/// What backtracking computes: the result keeps a prefix of `s`, bumps the
/// direction right after it, and drops a tail of last-slot directions; or
/// there is nothing left because every direction of `s` is in the last
/// slot.
proof fn lemma_bump_props(s: Seq<Direction>)
    requires
        s.len() >= 1,
    ensures
        match spec_bump(s) {
            Some(t) => {
                &&& 1 <= t.len() <= s.len()
                &&& t.take(t.len() - 1) == s.take(t.len() - 1)
                &&& spec_dir_succ(s[t.len() - 1]) == Some(t.last())
                &&& forall|i: int| t.len() <= i < s.len() ==> spec_dir_succ(#[trigger] s[i]) is None
            },
            None => forall|i: int| 0 <= i < s.len() ==> spec_dir_succ(#[trigger] s[i]) is None,
        },
    decreases s.len(),
{
    match spec_dir_succ(s.last()) {
        Some(d) => {
            let t = s.drop_last().push(d);
            assert(t.take(t.len() - 1) =~= s.take(t.len() - 1));
            assert(t.last() == d);
        }
        None => {
            if s.len() == 1 {
            } else {
                lemma_bump_props(s.drop_last());
                match spec_bump(s.drop_last()) {
                    Some(t) => {
                        assert(t.take(t.len() - 1) =~= s.take(t.len() - 1)) by {
                            assert(forall|i: int|
                                0 <= i < t.len() - 1 ==> s.drop_last().take(t.len() - 1)[i]
                                    == #[trigger] s.take(t.len() - 1)[i]);
                        }
                        assert(forall|i: int|
                            t.len() <= i < s.len() ==> spec_dir_succ(#[trigger] s[i]) is None) by {
                            assert(forall|i: int|
                                t.len() <= i < s.len() - 1 ==> s[i] == s.drop_last()[i]);
                        }
                    }
                    None => {
                        assert(forall|i: int|
                            0 <= i < s.len() - 1 ==> s[i] == s.drop_last()[i]);
                    }
                }
            }
        }
    }
}

/// With `depth >= 1` the first visited string is the single first
/// direction, and it precedes every other visited string; with `depth == 0`
/// nothing is visited.
pub proof fn lemma_first_visited(pruned: spec_fn(Seq<Direction>) -> bool, depth: nat)
    ensures
        depth == 0 ==> forall|u: Seq<Direction>| !visited_by(pruned, depth, u),
        depth >= 1 ==> visited_by(pruned, depth, seq![Direction::North]) && forall|
            u: Seq<Direction>,
        |
            visited_by(pruned, depth, u) && u != seq![Direction::North] ==> pre_lt(
                seq![Direction::North],
                u,
            ),
{
    lemma_dir_index_facts();
    let f = seq![Direction::North];
    if depth >= 1 {
        assert(visited_by(pruned, depth, f));
        assert forall|u: Seq<Direction>|
            visited_by(pruned, depth, u) && u != f implies pre_lt(f, u) by {
            if u[0] == Direction::North {
                if u.len() == 1 {
                    assert(u =~= f);
                } else {
                    assert(u.take(1) =~= f);
                    assert(is_prefix(f, u));
                }
            } else {
                assert(f.take(0) =~= u.take(0));
                assert(dir_index(u[0]) > 0);
                assert(lt_at(f, u, 0));
            }
        }
    }
}

/// From a visited string, one walker step (descending unless the string
/// was pruned or is at the depth bound, otherwise backtracking) yields
/// precisely the next visited string in pre-order, or exhaustion when none
/// follows.
pub proof fn lemma_step_succ(
    pruned: spec_fn(Seq<Direction>) -> bool,
    depth: nat,
    s: Seq<Direction>,
)
    requires
        visited_by(pruned, depth, s),
    ensures
        match walker_step(s, pruned(s), depth) {
            Some(t) => {
                &&& visited_by(pruned, depth, t)
                &&& pre_lt(s, t)
                &&& forall|u: Seq<Direction>|
                    visited_by(pruned, depth, u) && pre_lt(s, u) && u != t ==> pre_lt(t, u)
            },
            None => forall|u: Seq<Direction>|
                visited_by(pruned, depth, u) ==> !pre_lt(s, u),
        },
{
    lemma_dir_index_facts();
    if !pruned(s) && s.len() < depth {
        let t = s.push(Direction::North);
        assert(visited_by(pruned, depth, t)) by {
            assert forall|k: int| 1 <= k < t.len() implies !pruned(#[trigger] t.take(k)) by {
                assert(t.take(k) =~= s.take(k));
                if k == s.len() {
                    assert(s.take(k) =~= s);
                }
            }
        }
        assert(t.take(s.len() as int) =~= s);
        assert(is_prefix(s, t));
        assert forall|u: Seq<Direction>|
            visited_by(pruned, depth, u) && pre_lt(s, u) && u != t implies pre_lt(t, u) by {
            if is_prefix(s, u) && s.len() < u.len() {
                if u[s.len() as int] == Direction::North {
                    assert(u.take(t.len() as int) =~= t) by {
                        assert(forall|i: int|
                            0 <= i < s.len() ==> u[i] == #[trigger] s[i]) by {
                            assert(forall|i: int|
                                0 <= i < s.len() ==> u.take(s.len() as int)[i] == u[i]);
                        }
                    }
                    assert(u.len() > t.len()) by {
                        if u.len() == t.len() {
                            assert(u =~= t);
                        }
                    }
                    assert(is_prefix(t, u));
                } else {
                    assert(lt_at(t, u, s.len() as int)) by {
                        assert(t.take(s.len() as int) =~= u.take(s.len() as int));
                        assert(dir_index(u[s.len() as int]) > 0);
                    }
                }
            } else {
                let k = choose|k: int| lt_at(s, u, k);
                assert(lt_at(t, u, k)) by {
                    assert(t.take(k) =~= s.take(k));
                    assert(t[k] == s[k]);
                }
            }
        }
    } else {
        // Backtracking: every descendant of `s` is out (pruned or beyond
        // the bound), so the next visited string is the bump target.
        lemma_bump_props(s);
        assert forall|u: Seq<Direction>|
            visited_by(pruned, depth, u) && pre_lt(s, u) implies (exists|k: int|
            lt_at(s, u, k)) by {
            if is_prefix(s, u) && s.len() < u.len() {
                assert(u.take(s.len() as int) == s);
                assert(!pruned(u.take(s.len() as int)));
                assert(u.len() <= depth);
                assert(false);
            }
        }
        match spec_bump(s) {
            Some(t) => {
                let j = t.len() - 1;
                assert(visited_by(pruned, depth, t)) by {
                    assert forall|k: int| 1 <= k < t.len() implies !pruned(
                        #[trigger] t.take(k),
                    ) by {
                        assert(t.take(k) =~= s.take(k)) by {
                            assert(forall|i: int|
                                0 <= i < k ==> t.take(j)[i] == #[trigger] t[i] && s.take(j)[i]
                                    == s[i]);
                        }
                    }
                }
                assert(pre_lt(s, t)) by {
                    assert(lt_at(s, t, j)) by {
                        assert(s.take(j) =~= t.take(j)) by {
                            assert(t.take(t.len() - 1) == s.take(t.len() - 1));
                        }
                        assert(t[j] == t.last());
                    }
                }
                assert forall|u: Seq<Direction>|
                    visited_by(pruned, depth, u) && pre_lt(s, u) && u != t implies pre_lt(
                    t,
                    u,
                ) by {
                    let k = choose|k: int| lt_at(s, u, k);
                    assert(dir_index(s[k]) < dir_index(u[k]));
                    assert(k < t.len()) by {
                        if k >= t.len() {
                            assert(spec_dir_succ(s[k]) is None);
                            assert(dir_index(s[k]) == 5);
                        }
                    }
                    assert(forall|i: int|
                        0 <= i < j ==> t[i] == #[trigger] s[i]) by {
                        assert(forall|i: int|
                            0 <= i < j ==> t.take(j)[i] == t[i] && s.take(j)[i] == s[i]);
                    }
                    if k < j {
                        assert(lt_at(t, u, k)) by {
                            assert(t.take(k) =~= s.take(k));
                            assert(t[k] == s[k]);
                        }
                    } else {
                        assert(k == j);
                        assert(dir_index(t[j]) == dir_index(s[j]) + 1);
                        assert(t.take(j) =~= u.take(j)) by {
                            assert(s.take(j) == u.take(j));
                            assert(s.take(j) =~= t.take(j));
                        }
                        if dir_index(t[j]) < dir_index(u[j]) {
                            assert(lt_at(t, u, j));
                        } else {
                            assert(t[j] == u[j]) by {
                                lemma_dir_same_index(t[j], u[j]);
                            }
                            assert(u.take(t.len() as int) =~= t) by {
                                assert(forall|i: int|
                                    0 <= i < j ==> u[i] == #[trigger] u.take(j)[i]);
                            }
                            if u.len() == t.len() {
                                assert(u =~= t);
                            }
                            assert(is_prefix(t, u) && t.len() < u.len());
                        }
                    }
                }
            }
            None => {
                assert forall|u: Seq<Direction>|
                    visited_by(pruned, depth, u) implies !pre_lt(s, u) by {
                    if pre_lt(s, u) {
                        let k = choose|k: int| lt_at(s, u, k);
                        assert(spec_dir_succ(s[k]) is None);
                        assert(dir_index(s[k]) == 5);
                    }
                }
            }
        }
    }
}

/// Two directions with the same index are the same direction.
proof fn lemma_dir_same_index(a: Direction, b: Direction)
    requires
        dir_index(a) == dir_index(b),
    ensures
        a == b,
{
}

} // verus!

verus! {

/// Number of direction strings of length at most `b`, the empty string
/// included: the size of one traversal subtree with `b` levels below its
/// root.
pub open spec fn sub_count(b: nat) -> nat
    decreases b,
{
    if b == 0 {
        1
    } else {
        1 + 6 * sub_count((b - 1) as nat)
    }
}

/// Position of a string in the full depth-first pre-order over all
/// non-empty strings of length at most `depth` (the empty string ranks
/// zero; the first visited string ranks one).
pub open spec fn rank(s: Seq<Direction>, depth: nat) -> int
    decreases s.len(),
{
    if s.len() == 0 {
        0
    } else {
        dir_index(s[0]) * sub_count((depth - 1) as nat) + 1 + rank(s.skip(1), (depth - 1) as nat)
    }
}

/// Ranks of strings within the depth bound stay within the tree size.
pub proof fn lemma_rank_bounds(s: Seq<Direction>, depth: nat)
    requires
        s.len() <= depth,
    ensures
        0 <= rank(s, depth) <= sub_count(depth) - 1,
    decreases s.len(),
{
    if s.len() > 0 {
        lemma_rank_bounds(s.skip(1), (depth - 1) as nat);
        assert(0 <= dir_index(s[0]) <= 5) by {
            match s[0] {
                Direction::North => {}
                Direction::NorthEast => {}
                Direction::SouthEast => {}
                Direction::South => {}
                Direction::SouthWest => {}
                Direction::NorthWest => {}
            }
        }
        let sb = sub_count((depth - 1) as nat) as int;
        assert(dir_index(s[0]) * sb <= 5 * sb) by (nonlinear_arith)
            requires
                dir_index(s[0]) <= 5,
                sb >= 0,
        ;
        assert(dir_index(s[0]) * sb >= 0) by (nonlinear_arith)
            requires
                dir_index(s[0]) >= 0,
                sb >= 0,
        ;
    }
}

/// Descending to the first child advances the rank by exactly one.
pub proof fn lemma_rank_push(s: Seq<Direction>, depth: nat)
    requires
        s.len() < depth,
    ensures
        rank(s.push(Direction::North), depth) == rank(s, depth) + 1,
    decreases s.len(),
{
    if s.len() == 0 {
        let t = s.push(Direction::North);
        assert(t.skip(1) =~= Seq::<Direction>::empty());
        assert(rank(t.skip(1), (depth - 1) as nat) == 0);
        assert(t[0] == Direction::North);
    } else {
        lemma_rank_push(s.skip(1), (depth - 1) as nat);
        assert(s.push(Direction::North).skip(1) =~= s.skip(1).push(Direction::North));
        assert(s.push(Direction::North)[0] == s[0]);
    }
}

/// Rank splits over concatenation, the tail ranked in the remaining
/// levels.
pub proof fn lemma_rank_concat(a: Seq<Direction>, b: Seq<Direction>, depth: nat)
    requires
        a.len() + b.len() <= depth,
    ensures
        rank(a + b, depth) == rank(a, depth) + rank(b, (depth - a.len()) as nat),
    decreases a.len(),
{
    if a.len() == 0 {
        assert(a + b =~= b);
    } else {
        lemma_rank_concat(a.skip(1), b, (depth - 1) as nat);
        assert((a + b).skip(1) =~= a.skip(1) + b);
        assert((a + b)[0] == a[0]);
    }
}

/// The all-last-slot string of full remaining length ranks last in its
/// subtree.
pub proof fn lemma_rank_all_max(s: Seq<Direction>, depth: nat)
    requires
        s.len() == depth,
        forall|i: int| 0 <= i < s.len() ==> dir_index(#[trigger] s[i]) == 5,
    ensures
        rank(s, depth) == sub_count(depth) - 1,
    decreases s.len(),
{
    if s.len() > 0 {
        assert(forall|i: int| 0 <= i < s.skip(1).len() ==> #[trigger] s.skip(1)[i] == s[i + 1]);
        lemma_rank_all_max(s.skip(1), (depth - 1) as nat);
    }
}

/// Backtracking advances the rank, and from a string of full length by
/// exactly one.
pub proof fn lemma_bump_rank(s: Seq<Direction>, depth: nat)
    requires
        1 <= s.len() <= depth,
    ensures
        match spec_bump(s) {
            Some(t) => {
                &&& 1 <= t.len() <= s.len()
                &&& rank(t, depth) > rank(s, depth)
                &&& s.len() == depth ==> rank(t, depth) == rank(s, depth) + 1
            },
            None => s.len() == depth ==> rank(s, depth) == sub_count(depth) - 1,
        },
{
    lemma_dir_index_facts();
    lemma_bump_props(s);
    match spec_bump(s) {
        Some(t) => {
            let j = t.len() as int;
            let pre = s.take(j - 1);
            let c = s[j - 1];
            let d = t.last();
            let tail = s.skip(j);
            assert(s =~= (pre + seq![c]) + tail) by {
                assert(forall|i: int| 0 <= i < j - 1 ==> #[trigger] pre[i] == s[i]);
            }
            assert(t =~= pre + seq![d]) by {
                assert(t.take(t.len() - 1) == s.take(t.len() - 1));
                assert(forall|i: int| 0 <= i < j - 1 ==> #[trigger] t[i] == t.take(j - 1)[i]);
            }
            let dleft = (depth - (j - 1)) as nat;
            let dtail = (depth - j) as nat;
            lemma_rank_concat(pre + seq![c], tail, depth);
            lemma_rank_concat(pre, seq![c], depth);
            lemma_rank_concat(pre, seq![d], depth);
            assert(seq![c].skip(1) =~= Seq::<Direction>::empty());
            assert(seq![d].skip(1) =~= Seq::<Direction>::empty());
            assert(rank(seq![c].skip(1), (dleft - 1) as nat) == 0);
            assert(rank(seq![d].skip(1), (dleft - 1) as nat) == 0);
            assert(seq![c][0] == c && seq![d][0] == d);
            assert(rank(seq![c], dleft) == dir_index(c) * sub_count(dtail) + 1);
            assert(rank(seq![d], dleft) == dir_index(d) * sub_count(dtail) + 1);
            assert(dir_index(d) == dir_index(c) + 1);
            lemma_rank_bounds(tail, dtail);
            let sb = sub_count(dtail) as int;
            assert(dir_index(d) * sb == dir_index(c) * sb + sb) by (nonlinear_arith)
                requires
                    dir_index(d) == dir_index(c) + 1,
            ;
            assert(rank(s, depth) == rank(pre, depth) + dir_index(c) * sb + 1 + rank(tail, dtail));
            assert(rank(t, depth) == rank(pre, depth) + dir_index(d) * sb + 1);
            if s.len() == depth {
                assert(forall|i: int|
                    0 <= i < tail.len() ==> dir_index(#[trigger] tail[i]) == 5) by {
                    assert(forall|i: int|
                        0 <= i < tail.len() ==> #[trigger] tail[i] == s[i + j]);
                }
                lemma_rank_all_max(tail, dtail);
            }
        }
        None => {
            if s.len() == depth {
                assert(forall|i: int| 0 <= i < s.len() ==> dir_index(#[trigger] s[i]) == 5);
                lemma_rank_all_max(s, depth);
            }
        }
    }
}

/// One walker step advances the rank; without pruning and from a string
/// that cannot descend further, by exactly one.
pub proof fn lemma_step_rank(s: Seq<Direction>, backing: bool, depth: nat)
    requires
        1 <= s.len() <= depth,
    ensures
        match walker_step(s, backing, depth) {
            Some(t) => {
                &&& 1 <= t.len() <= depth
                &&& rank(s, depth) < rank(t, depth) <= sub_count(depth) - 1
                &&& (!backing ==> rank(t, depth) == rank(s, depth) + 1)
            },
            None => !backing ==> rank(s, depth) == sub_count(depth) - 1,
        },
{
    if !backing && s.len() < depth {
        lemma_rank_push(s, depth);
        lemma_rank_bounds(s.push(Direction::North), depth);
    } else {
        lemma_bump_rank(s, depth);
        match spec_bump(s) {
            Some(t) => {
                lemma_rank_bounds(t, depth);
            }
            None => {}
        }
    }
}

/// A step from the very start reaches the first string, of rank one.
pub proof fn lemma_rank_first(depth: nat)
    ensures
        rank(seq![Direction::North], depth) == 1,
{
    let t = seq![Direction::North];
    assert(t.skip(1) =~= Seq::<Direction>::empty());
    assert(rank(t.skip(1), (depth - 1) as nat) == 0);
    assert(t[0] == Direction::North);
}

} // verus!

verus! {

/// `6 + 6^2 + ... + 6^d`, the number of non-empty direction strings of
/// length at most `d`.
pub open spec fn sum_powers_of_six(d: nat) -> nat
    decreases d,
{
    if d == 0 {
        0
    } else {
        6 * (sum_powers_of_six((d - 1) as nat) + 1)
    }
}

/// The subtree size counts exactly the non-empty strings plus the root.
pub proof fn lemma_sub_count_sum(d: nat)
    ensures
        sub_count(d) == sum_powers_of_six(d) + 1,
    decreases d,
{
    if d > 0 {
        lemma_sub_count_sum((d - 1) as nat);
    }
}

/// The whole remaining traversal from a string onward, that string
/// included, when nothing is pruned.
pub open spec fn walk_seq(s: Seq<Direction>, depth: nat) -> Seq<Seq<Direction>>
    decreases sub_count(depth) - rank(s, depth),
        when 1 <= s.len() <= depth
        via walk_seq_decreases
{
    seq![s] + (match walker_step(s, false, depth) {
        Some(t) => walk_seq(t, depth),
        None => Seq::<Seq<Direction>>::empty(),
    })
}

#[via_fn]
proof fn walk_seq_decreases(s: Seq<Direction>, depth: nat) {
    lemma_step_rank(s, false, depth);
    lemma_rank_bounds(s, depth);
}

/// The unpruned traversal from `s` visits one string per remaining rank,
/// in rank order; its entries are pairwise distinct and within the depth
/// bound.
pub proof fn lemma_walk_seq_props(s: Seq<Direction>, depth: nat)
    requires
        1 <= s.len() <= depth,
    ensures
        walk_seq(s, depth).len() == sub_count(depth) - rank(s, depth),
        walk_seq(s, depth)[0] == s,
        forall|i: int|
            0 <= i < walk_seq(s, depth).len() ==> rank(#[trigger] walk_seq(s, depth)[i], depth)
                == rank(s, depth) + i && 1 <= walk_seq(s, depth)[i].len() <= depth,
        forall|i: int, j: int|
            0 <= i < j < walk_seq(s, depth).len() ==> walk_seq(s, depth)[i] != walk_seq(
                s,
                depth,
            )[j],
    decreases sub_count(depth) - rank(s, depth),
{
    lemma_step_rank(s, false, depth);
    lemma_rank_bounds(s, depth);
    let w = walk_seq(s, depth);
    match walker_step(s, false, depth) {
        Some(t) => {
            lemma_walk_seq_props(t, depth);
            let wt = walk_seq(t, depth);
            assert(w == seq![s] + wt);
            assert(w.len() == 1 + wt.len());
            assert forall|i: int|
                0 <= i < w.len() implies rank(#[trigger] w[i], depth) == rank(s, depth) + i && 1
                <= w[i].len() <= depth by {
                if i > 0 {
                    assert(w[i] == wt[i - 1]);
                }
            }
        }
        None => {
            assert(w =~= seq![s]);
        }
    }
    assert forall|i: int, j: int| 0 <= i < j < w.len() implies w[i] != w[j] by {
        assert(rank(w[i], depth) != rank(w[j], depth));
    }
}

/// Without pruning, the enumerator's traversal from its first string
/// yields exactly `6 + 6^2 + ... + 6^depth` pairwise distinct direction
/// strings, each of length between one and `depth`.
pub proof fn lemma_full_enumeration_count(depth: nat)
    requires
        depth >= 1,
    ensures
        walk_seq(seq![Direction::North], depth).len() == sum_powers_of_six(depth),
        walk_seq(seq![Direction::North], depth)[0] == seq![Direction::North],
        forall|i: int|
            0 <= i < walk_seq(seq![Direction::North], depth).len() ==> 1 <= (
            #[trigger] walk_seq(seq![Direction::North], depth)[i]).len() <= depth,
        forall|i: int, j: int|
            0 <= i < j < walk_seq(seq![Direction::North], depth).len() ==> walk_seq(
                seq![Direction::North],
                depth,
            )[i] != walk_seq(seq![Direction::North], depth)[j],
{
    lemma_rank_first(depth);
    lemma_walk_seq_props(seq![Direction::North], depth);
    lemma_sub_count_sum(depth);
}


/// From an origin around which the whole traversal stays representable,
/// the unpruned enumeration yields pairwise distinct position paths, not
/// merely distinct direction strings.
pub proof fn lemma_full_enumeration_distinct_paths(origin: Pos, depth: nat)
    requires
        depth >= 1,
        box_fits(origin, depth as int),
    ensures
        forall|i: int, j: int|
            0 <= i < j < walk_seq(seq![Direction::North], depth).len() ==> path_from(
                origin,
                walk_seq(seq![Direction::North], depth)[i],
            ) != path_from(origin, walk_seq(seq![Direction::North], depth)[j]),
{
    lemma_full_enumeration_count(depth);
    let w = walk_seq(seq![Direction::North], depth);
    assert forall|i: int, j: int|
        0 <= i < j < w.len() implies path_from(origin, w[i]) != path_from(origin, w[j]) by {
        if path_from(origin, w[i]) == path_from(origin, w[j]) {
            lemma_paths_determine_directions(origin, w[i], w[j]);
        }
    }
}

/// The pruning predicate extended so that it also prunes at `x`.
pub open spec fn prune_also_at(
    pruned: spec_fn(Seq<Direction>) -> bool,
    x: Seq<Direction>,
) -> spec_fn(Seq<Direction>) -> bool {
    |t: Seq<Direction>| pruned(t) || t == x
}

/// Pruning a node removes exactly its proper descendants from the
/// traversal: a string is visited under the extended predicate precisely
/// when it was visited before and the pruned node is not a proper prefix
/// of it. Siblings and ancestors of the pruned node, and the node itself,
/// are visited exactly as before.
pub proof fn lemma_prune_removes_descendants(
    pruned: spec_fn(Seq<Direction>) -> bool,
    x: Seq<Direction>,
    depth: nat,
)
    requires
        x.len() >= 1,
    ensures
        forall|u: Seq<Direction>|
            #[trigger] visited_by(prune_also_at(pruned, x), depth, u) == (visited_by(
                pruned,
                depth,
                u,
            ) && !(is_prefix(x, u) && x.len() < u.len())),
{
    let f = prune_also_at(pruned, x);
    assert forall|u: Seq<Direction>|
        #[trigger] visited_by(f, depth, u) == (visited_by(pruned, depth, u) && !(is_prefix(x, u)
            && x.len() < u.len())) by {
        if visited_by(f, depth, u) {
            assert forall|k: int| 1 <= k < u.len() implies !pruned(#[trigger] u.take(k)) by {
                assert(!f(u.take(k)));
            }
            if is_prefix(x, u) && x.len() < u.len() {
                assert(u.take(x.len() as int) == x);
                assert(f(u.take(x.len() as int)));
                assert(false);
            }
        } else if visited_by(pruned, depth, u) && !(is_prefix(x, u) && x.len() < u.len()) {
            assert forall|k: int| 1 <= k < u.len() implies !f(#[trigger] u.take(k)) by {
                if u.take(k) == x {
                    assert(u.take(k).len() == k);
                    assert(k == x.len());
                    assert(is_prefix(x, u));
                    assert(false);
                }
            }
            assert(visited_by(f, depth, u));
        }
    }
}

} // verus!
