//! Engine-wide laws: facts that hold of every world, stated over the same
//! spec-level model that the executable functions are specified against.

use vstd::prelude::*;
use crate::life::{
    Loc, alive_in, alive_at, cell_loc, count_alive, live_nbrs, nbr_seq, parsed, rule, step_dom,
    step_keep, step_map, step_val,
};

verus! {

proof fn lemma_count_step(m: Map<Loc, bool>, s: Seq<Loc>, k: int)
    requires
        0 <= k < s.len(),
    ensures
        count_alive(m, s.take(k + 1)) == count_alive(m, s.take(k)) + if alive_in(m, s[k]) {
            1nat
        } else {
            0nat
        },
{
    assert(s.take(k + 1).drop_last() =~= s.take(k));
    assert(s.take(k + 1).last() == s[k]);
}

/// The live-neighbor count is the sum of one indicator per neighbor.
pub proof fn lemma_count8(m: Map<Loc, bool>, l: Loc)
    ensures
        live_nbrs(m, l) == (if alive_in(m, nbr_seq(l)[0]) { 1nat } else { 0nat })
            + (if alive_in(m, nbr_seq(l)[1]) { 1nat } else { 0nat })
            + (if alive_in(m, nbr_seq(l)[2]) { 1nat } else { 0nat })
            + (if alive_in(m, nbr_seq(l)[3]) { 1nat } else { 0nat })
            + (if alive_in(m, nbr_seq(l)[4]) { 1nat } else { 0nat })
            + (if alive_in(m, nbr_seq(l)[5]) { 1nat } else { 0nat })
            + (if alive_in(m, nbr_seq(l)[6]) { 1nat } else { 0nat })
            + (if alive_in(m, nbr_seq(l)[7]) { 1nat } else { 0nat }),
{
    let s = nbr_seq(l);
    assert(s.take(0) =~= Seq::<Loc>::empty());
    lemma_count_step(m, s, 0);
    lemma_count_step(m, s, 1);
    lemma_count_step(m, s, 2);
    lemma_count_step(m, s, 3);
    lemma_count_step(m, s, 4);
    lemma_count_step(m, s, 5);
    lemma_count_step(m, s, 6);
    lemma_count_step(m, s, 7);
    assert(s.take(8) =~= s);
}

/// An alive coordinate whose neighbors are all dead has zero live neighbors
/// and is dead after exactly one generation advance.
pub proof fn lemma_isolated_cell_dies(m: Map<Loc, bool>, l: Loc)
    requires
        alive_in(m, l),
        forall|k: int| 0 <= k < 8 ==> !alive_in(m, #[trigger] nbr_seq(l)[k]),
    ensures
        live_nbrs(m, l) == 0,
        !alive_in(step_map(m), l),
{
    lemma_count8(m, l);
    assert(!step_val(m, l));
}

/// After a generation advance, the tracked set covers every alive coordinate
/// together with its whole neighborhood: the store stays a frontier.
pub proof fn lemma_step_frontier(m: Map<Loc, bool>, l: Loc)
    requires
        alive_in(step_map(m), l),
    ensures
        step_map(m).dom().contains(l),
        forall|k: int| 0 <= k < 8 ==> step_map(m).dom().contains(#[trigger] nbr_seq(l)[k]),
{
    assert(step_val(m, l));
    assert forall|k: int| 0 <= k < 8 implies step_map(m).dom().contains(
        #[trigger] nbr_seq(l)[k],
    ) by {
        assert(nbr_seq(l).contains(nbr_seq(l)[k]));
        assert(step_dom(m, nbr_seq(l)[k]));
    }
}

/// A freshly parsed store likewise covers every alive coordinate's
/// neighborhood.
pub proof fn lemma_parsed_frontier(
    s: Seq<char>,
    dead: char,
    alive: char,
    m: Map<Loc, bool>,
    l: Loc,
)
    requires
        parsed(s, dead, alive, m),
        alive_in(m, l),
    ensures
        m.dom().contains(l),
        forall|k: int| 0 <= k < 8 ==> m.dom().contains(#[trigger] nbr_seq(l)[k]),
{
    let j = choose|j: int|
        j < s.len() && alive_at(s, dead, alive, j) && #[trigger] cell_loc(s, dead, alive, j) == l;
    assert forall|k: int| 0 <= k < 8 implies m.dom().contains(#[trigger] nbr_seq(l)[k]) by {
        assert(nbr_seq(cell_loc(s, dead, alive, j)).contains(nbr_seq(l)[k]));
    }
}

/// Membership in a 2-by-2 block whose top-left corner is `(r, c)`.
pub open spec fn in_block(l: Loc, r: i64, c: i64) -> bool {
    (l.row == r || l.row == r + 1) && (l.col == c || l.col == c + 1)
}

/// A 2-by-2 block is a still life: every member has exactly 3 live neighbors,
/// every other tracked coordinate has at most 2, and one generation advance
/// reproduces the store exactly, so the block persists forever.
#[verifier::rlimit(100)]
pub proof fn lemma_block_still_life(m: Map<Loc, bool>, r: i64, c: i64)
    requires
        i64::MIN + 1 <= r,
        r + 2 <= i64::MAX,
        i64::MIN + 1 <= c,
        c + 2 <= i64::MAX,
        forall|l: Loc| #[trigger] alive_in(m, l) <==> in_block(l, r, c),
        forall|l: Loc| #[trigger] m.dom().contains(l) <==> in_block(l, r, c) || exists|b: Loc|
            in_block(b, r, c) && #[trigger] nbr_seq(b).contains(l),
    ensures
        forall|l: Loc| in_block(l, r, c) ==> live_nbrs(m, l) == 3,
        forall|l: Loc| #[trigger] m.dom().contains(l) && !in_block(l, r, c) ==> live_nbrs(m, l)
            <= 2,
        step_map(m) == m,
{
    assert forall|l: Loc| in_block(l, r, c) implies live_nbrs(m, l) == 3 by {
        lemma_count8(m, l);
    }
    assert forall|l: Loc| #[trigger] m.dom().contains(l) && !in_block(l, r, c) implies live_nbrs(
        m,
        l,
    ) <= 2 by {
        let b = choose|b: Loc| in_block(b, r, c) && #[trigger] nbr_seq(b).contains(l);
        let idx = choose|idx: int| 0 <= idx < 8 && #[trigger] nbr_seq(b)[idx] == l;
        lemma_count8(m, l);
    }
    assert forall|l: Loc| #[trigger] step_dom(m, l) <==> m.dom().contains(l) by {
        if step_dom(m, l) {
            if !step_keep(m, l) {
                let a = choose|a: Loc| #[trigger] step_val(m, a) && nbr_seq(a).contains(l);
                if !in_block(a, r, c) {
                    assert(!rule(alive_in(m, a), live_nbrs(m, a)));
                }
                assert(in_block(a, r, c));
            }
        }
        if m.dom().contains(l) {
            if in_block(l, r, c) {
                assert(step_keep(m, l));
            } else {
                let b = choose|b: Loc| in_block(b, r, c) && #[trigger] nbr_seq(b).contains(l);
                let idx = choose|idx: int| 0 <= idx < 8 && #[trigger] nbr_seq(b)[idx] == l;
                lemma_count8(m, l);
                assert(live_nbrs(m, l) > 0);
                assert(step_keep(m, l));
            }
        }
    }
    assert forall|l: Loc| m.dom().contains(l) implies step_val(m, l) == m[l] by {
        if in_block(l, r, c) {
            assert(alive_in(m, l));
        } else {
            assert(!alive_in(m, l));
        }
    }
    assert(step_map(m) =~= m);
}

/// Membership in the 3-cell horizontal bar centered on `(r, c)`.
pub open spec fn in_hbar(l: Loc, r: i64, c: i64) -> bool {
    l.row == r && (l.col == c - 1 || l.col == c || l.col == c + 1)
}

/// Membership in the 3-cell vertical bar centered on `(r, c)`.
pub open spec fn in_vbar(l: Loc, r: i64, c: i64) -> bool {
    l.col == c && (l.row == r - 1 || l.row == r || l.row == r + 1)
}

/// A horizontal blinker becomes the vertical bar after one generation advance
/// (so it differs from its original alive set) and returns to exactly its
/// original alive set after two.
#[verifier::rlimit(100)]
pub proof fn lemma_blinker_period_two(m: Map<Loc, bool>, r: i64, c: i64)
    requires
        i64::MIN + 2 <= r,
        r <= i64::MAX - 2,
        i64::MIN + 2 <= c,
        c <= i64::MAX - 2,
        forall|l: Loc| #[trigger] alive_in(m, l) <==> in_hbar(l, r, c),
        forall|l: Loc| #[trigger] m.dom().contains(l) <==> in_hbar(l, r, c) || exists|b: Loc|
            in_hbar(b, r, c) && #[trigger] nbr_seq(b).contains(l),
    ensures
        forall|l: Loc| #[trigger] alive_in(step_map(m), l) <==> in_vbar(l, r, c),
        alive_in(m, Loc { row: r, col: (c - 1) as i64 }),
        !alive_in(step_map(m), Loc { row: r, col: (c - 1) as i64 }),
        forall|l: Loc| #[trigger] alive_in(step_map(step_map(m)), l) <==> in_hbar(l, r, c),
{
    let m1 = step_map(m);
    assert forall|l: Loc| #[trigger] alive_in(m1, l) <==> step_val(m, l) by {
        if step_val(m, l) {
            assert(step_dom(m, l));
        }
    }
    assert forall|l: Loc| #[trigger] alive_in(m1, l) <==> in_vbar(l, r, c) by {
        lemma_count8(m, l);
        if in_vbar(l, r, c) {
            if l.row == r - 1 {
                assert(nbr_seq(Loc { row: r, col: c })[1] == l);
                assert(nbr_seq(Loc { row: r, col: c }).contains(l));
                assert(m.dom().contains(l));
            } else if l.row == r + 1 {
                assert(nbr_seq(Loc { row: r, col: c })[6] == l);
                assert(nbr_seq(Loc { row: r, col: c }).contains(l));
                assert(m.dom().contains(l));
            } else {
                assert(in_hbar(l, r, c));
            }
            assert(step_val(m, l));
        } else if step_val(m, l) {
            if !in_hbar(l, r, c) {
                let b = choose|b: Loc| in_hbar(b, r, c) && #[trigger] nbr_seq(b).contains(l);
                let idx = choose|idx: int| 0 <= idx < 8 && #[trigger] nbr_seq(b)[idx] == l;
                assert(!rule(alive_in(m, l), live_nbrs(m, l)));
            } else {
                assert(!rule(alive_in(m, l), live_nbrs(m, l)));
            }
        }
    }
    assert(nbr_seq(Loc { row: r, col: c })[3] == Loc { row: r, col: (c - 1) as i64 });
    assert(nbr_seq(Loc { row: r, col: c }).contains(Loc { row: r, col: (c - 1) as i64 }));
    assert(alive_in(m, Loc { row: r, col: (c - 1) as i64 }));
    assert(!in_vbar(Loc { row: r, col: (c - 1) as i64 }, r, c));
    assert forall|l: Loc| #[trigger] alive_in(step_map(m1), l) <==> step_val(m1, l) by {
        if step_val(m1, l) {
            assert(step_dom(m1, l));
        }
    }
    assert forall|l: Loc| #[trigger] step_val(m1, l) <==> in_hbar(l, r, c) by {
        lemma_count8(m1, l);
        if in_hbar(l, r, c) {
            lemma_count8(m, l);
            assert(step_keep(m, l));
            assert(m1.dom().contains(l));
            assert(step_val(m1, l));
        } else if step_val(m1, l) {
            if step_keep(m, l) {
                if !in_hbar(l, r, c) && m.dom().contains(l) {
                    let b = choose|b: Loc| in_hbar(b, r, c) && #[trigger] nbr_seq(b).contains(l);
                    let idx = choose|idx: int| 0 <= idx < 8 && #[trigger] nbr_seq(b)[idx] == l;
                    assert(!rule(alive_in(m1, l), live_nbrs(m1, l)));
                }
            } else {
                let a = choose|a: Loc| #[trigger] step_val(m, a) && nbr_seq(a).contains(l);
                assert(in_vbar(a, r, c));
                let idx = choose|idx: int| 0 <= idx < 8 && #[trigger] nbr_seq(a)[idx] == l;
                assert(!rule(alive_in(m1, l), live_nbrs(m1, l)));
            }
        }
    }
}

} // verus!

