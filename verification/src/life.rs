//! The simulation core: coordinates, sparse generation stores, the world with
//! its double-buffered stores, and the configuration parser.

use vstd::prelude::*;

verus! {

// ----------------------------------------------------------------------------
// Coordinates
// ----------------------------------------------------------------------------

/// One cell of the unbounded plane, identified by an integer (row, col) pair.
#[derive(PartialEq, Eq, Structural, Hash, Clone, Copy, Debug)]
pub struct Loc {
    pub row: i64,
    pub col: i64,
}

/// `x + 1` with wraparound at the extreme of `i64`.
pub open spec fn inc_spec(x: i64) -> i64 {
    if x == i64::MAX {
        i64::MIN
    } else {
        (x + 1) as i64
    }
}

/// `x - 1` with wraparound at the extreme of `i64`.
pub open spec fn dec_spec(x: i64) -> i64 {
    if x == i64::MIN {
        i64::MAX
    } else {
        (x - 1) as i64
    }
}

/// The 8 Moore neighbors of `l`, in row-major order: three above, two on the
/// same row, three below.
pub open spec fn nbr_seq(l: Loc) -> Seq<Loc> {
    seq![
        Loc { row: dec_spec(l.row), col: dec_spec(l.col) },
        Loc { row: dec_spec(l.row), col: l.col },
        Loc { row: dec_spec(l.row), col: inc_spec(l.col) },
        Loc { row: l.row, col: dec_spec(l.col) },
        Loc { row: l.row, col: inc_spec(l.col) },
        Loc { row: inc_spec(l.row), col: dec_spec(l.col) },
        Loc { row: inc_spec(l.row), col: l.col },
        Loc { row: inc_spec(l.row), col: inc_spec(l.col) },
    ]
}

fn inc(x: i64) -> (r: i64)
    ensures
        r == inc_spec(x),
{
    if x == i64::MAX {
        i64::MIN
    } else {
        x + 1
    }
}

fn dec(x: i64) -> (r: i64)
    ensures
        r == dec_spec(x),
{
    if x == i64::MIN {
        i64::MAX
    } else {
        x - 1
    }
}

impl Loc {
    pub fn new(row: i64, col: i64) -> (r: Self)
        ensures
            r == (Loc { row, col }),
    {
        Self { row, col }
    }

    /// The fixed, ordered Moore neighborhood: always exactly 8 coordinates,
    /// wrapping around at the extremes of the integer range.
    pub fn neighbors(&self) -> (r: [Loc; 8])
        ensures
            r@ == nbr_seq(*self),
    {
        let up = dec(self.row);
        let down = inc(self.row);
        let left = dec(self.col);
        let right = inc(self.col);
        let r = [
            Loc::new(up, left),
            Loc::new(up, self.col),
            Loc::new(up, right),
            Loc::new(self.row, left),
            Loc::new(self.row, right),
            Loc::new(down, left),
            Loc::new(down, self.col),
            Loc::new(down, right),
        ];
        proof {
            assert(r@ =~= nbr_seq(*self));
        }
        r
    }
}

// ----------------------------------------------------------------------------
// The rule
// ----------------------------------------------------------------------------

/// The classic birth/survival rule: a live cell survives with 2 or 3 live
/// neighbors, a dead cell is born with exactly 3.
pub open spec fn rule(alive: bool, alive_neighbors: nat) -> bool {
    if alive {
        alive_neighbors == 2 || alive_neighbors == 3
    } else {
        alive_neighbors == 3
    }
}

/// Next status of a cell with the given state and live-neighbor count.
pub fn new_status(alive: bool, alive_neighbors: usize) -> (r: bool)
    ensures
        r == rule(alive, alive_neighbors as nat),
{
    if alive && (alive_neighbors == 2 || alive_neighbors == 3) {
        true
    } else if !alive && alive_neighbors == 3 {
        true
    } else {
        false
    }
}

// ----------------------------------------------------------------------------
// Generation store
// ----------------------------------------------------------------------------

/// The sparse map that an association list denotes; a later entry for the same
/// coordinate overrides an earlier one.
pub open spec fn as_map(s: Seq<(Loc, bool)>) -> Map<Loc, bool>
    decreases s.len(),
{
    if s.len() == 0 {
        Map::empty()
    } else {
        as_map(s.drop_last()).insert(s.last().0, s.last().1)
    }
}

/// A sparse mapping from coordinates to alive/dead state. Absence of a
/// coordinate means "dead". Backed by an association list with unique keys.
#[derive(Debug)]
pub struct Buffer {
    cells: Vec<(Loc, bool)>,
}

impl View for Buffer {
    type V = Map<Loc, bool>;

    closed spec fn view(&self) -> Map<Loc, bool> {
        as_map(self.cells@)
    }
}

/// `l` is present and marked alive in `m`.
pub open spec fn alive_in(m: Map<Loc, bool>, l: Loc) -> bool {
    m.dom().contains(l) && m[l]
}

proof fn lemma_as_map_dom(s: Seq<(Loc, bool)>)
    ensures
        forall|l: Loc| #[trigger] as_map(s).dom().contains(l)
            <==> exists|i: int| 0 <= i < s.len() && (#[trigger] s[i]).0 == l,
    decreases s.len(),
{
    if s.len() > 0 {
        lemma_as_map_dom(s.drop_last());
        assert forall|l: Loc| #[trigger] as_map(s).dom().contains(l)
            implies exists|i: int| 0 <= i < s.len() && (#[trigger] s[i]).0 == l by {
            if l == s.last().0 {
                assert((s[s.len() - 1]).0 == l);
            } else {
                assert(as_map(s.drop_last()).dom().contains(l));
                let i = choose|i: int| 0 <= i < s.drop_last().len() && (#[trigger] s.drop_last()[i]).0 == l;
                assert((s[i]).0 == l);
            }
        }
        assert forall|l: Loc| (exists|i: int| 0 <= i < s.len() && (#[trigger] s[i]).0 == l)
            implies #[trigger] as_map(s).dom().contains(l) by {
            let i = choose|i: int| 0 <= i < s.len() && (#[trigger] s[i]).0 == l;
            if i < s.len() - 1 {
                assert((s.drop_last()[i]).0 == l);
                assert(as_map(s.drop_last()).dom().contains(l));
            }
        }
    }
}

/// If the entry at `i` is the last one for its key, the denoted map holds its value.
proof fn lemma_as_map_value(s: Seq<(Loc, bool)>, i: int)
    requires
        0 <= i < s.len(),
        forall|j: int| i < j < s.len() ==> (#[trigger] s[j]).0 != s[i].0,
    ensures
        as_map(s).dom().contains(s[i].0),
        as_map(s)[s[i].0] == s[i].1,
    decreases s.len(),
{
    lemma_as_map_dom(s);
    if i == s.len() - 1 {
    } else {
        assert(s.drop_last()[i] == s[i]);
        lemma_as_map_value(s.drop_last(), i);
        assert(s.last().0 != s[i].0);
    }
}

impl Buffer {
    /// Keys are pairwise distinct, so lookups are unambiguous.
    pub closed spec fn wf(&self) -> bool {
        forall|i: int, j: int|
            0 <= i < j < self.cells@.len() ==> (#[trigger] self.cells@[i]).0 != (
            #[trigger] self.cells@[j]).0
    }

    /// An empty store: every coordinate reads as dead.
    pub fn new() -> (r: Self)
        ensures
            r@ == Map::<Loc, bool>::empty(),
            r.wf(),
    {
        Self { cells: Vec::new() }
    }

    /// The stored state of `loc`, if `loc` is tracked.
    pub fn lookup(&self, loc: &Loc) -> (r: Option<bool>)
        requires
            self.wf(),
        ensures
            r == if self@.dom().contains(*loc) {
                Some(self@[*loc])
            } else {
                None::<bool>
            },
    {
        proof {
            lemma_as_map_dom(self.cells@);
        }
        let n = self.cells.len();
        let mut i: usize = 0;
        while i < n
            invariant
                self.wf(),
                n == self.cells@.len(),
                0 <= i <= n,
                forall|j: int| 0 <= j < i ==> (#[trigger] self.cells@[j]).0 != *loc,
            decreases n - i,
        {
            if self.cells[i].0 == *loc {
                proof {
                    lemma_as_map_value(self.cells@, i as int);
                }
                return Some(self.cells[i].1);
            }
            i += 1;
        }
        None
    }

    /// Insert `loc`, overwriting the stored state if `loc` is already tracked.
    pub fn put(&mut self, loc: Loc, value: bool)
        requires
            old(self).wf(),
        ensures
            final(self).wf(),
            final(self)@ == old(self)@.insert(loc, value),
    {
        proof {
            lemma_as_map_dom(self.cells@);
        }
        let n = self.cells.len();
        let mut i: usize = 0;
        while i < n
            invariant
                self.wf(),
                self == old(self),
                n == self.cells@.len(),
                0 <= i <= n,
                forall|j: int| 0 <= j < i ==> (#[trigger] self.cells@[j]).0 != loc,
            decreases n - i,
        {
            if self.cells[i].0 == loc {
                self.cells[i] = (loc, value);
                proof {
                    let s0 = old(self).cells@;
                    let s1 = self.cells@;
                    assert(s1 == s0.update(i as int, (loc, value)));
                    lemma_as_map_update(s0, i as int, loc, value);
                }
                return;
            }
            i += 1;
        }
        self.cells.push((loc, value));
        proof {
            assert(self.cells@.drop_last() == old(self).cells@);
        }
    }

    /// Remove every entry.
    pub fn clear(&mut self)
        ensures
            final(self).wf(),
            final(self)@ == Map::<Loc, bool>::empty(),
    {
        self.cells.clear();
    }

    /// A snapshot of every tracked coordinate, without duplicates.
    pub fn keys(&self) -> (r: Vec<Loc>)
        requires
            self.wf(),
        ensures
            forall|l: Loc| #[trigger] r@.contains(l) <==> self@.dom().contains(l),
            forall|i: int, j: int| 0 <= i < j < r@.len() ==> r@[i] != r@[j],
    {
        proof {
            lemma_as_map_dom(self.cells@);
        }
        let n = self.cells.len();
        let mut r: Vec<Loc> = Vec::new();
        let mut i: usize = 0;
        while i < n
            invariant
                n == self.cells@.len(),
                0 <= i <= n,
                r@.len() == i,
                forall|j: int| 0 <= j < i ==> r@[j] == (#[trigger] self.cells@[j]).0,
            decreases n - i,
        {
            r.push(self.cells[i].0);
            i += 1;
        }
        proof {
            assert forall|l: Loc| #[trigger] r@.contains(l) implies self@.dom().contains(l) by {
                let j = choose|j: int| 0 <= j < r@.len() && r@[j] == l;
                assert((self.cells@[j]).0 == l);
            }
            assert forall|l: Loc| self@.dom().contains(l) implies #[trigger] r@.contains(l) by {
                let j = choose|j: int| 0 <= j < self.cells@.len() && (#[trigger] self.cells@[j]).0 == l;
                assert(r@[j] == l);
            }
            assert forall|i: int, j: int| 0 <= i < j < r@.len() implies r@[i] != r@[j] by {
                assert(r@[i] == (self.cells@[i]).0);
                assert(r@[j] == (self.cells@[j]).0);
            }
        }
        r
    }
}

/// If the key at `i` occurs only there, updating `i` denotes a plain map insert.
proof fn lemma_as_map_update(s: Seq<(Loc, bool)>, i: int, loc: Loc, value: bool)
    requires
        0 <= i < s.len(),
        s[i].0 == loc,
        forall|j: int, k: int| 0 <= j < k < s.len() ==> (#[trigger] s[j]).0 != (#[trigger] s[k]).0,
    ensures
        as_map(s.update(i, (loc, value))) == as_map(s).insert(loc, value),
    decreases s.len(),
{
    let t = s.update(i, (loc, value));
    if i == s.len() - 1 {
        assert(t.drop_last() =~= s.drop_last());
        assert(as_map(t) =~= as_map(s).insert(loc, value));
    } else {
        assert(t.drop_last() =~= s.drop_last().update(i, (loc, value)));
        lemma_as_map_update(s.drop_last(), i, loc, value);
        assert(s.last().0 != loc);
        assert(t.last() == s.last());
        assert(as_map(t) =~= as_map(s).insert(loc, value));
    }
}

/// Whether `buffer` marks `loc` alive; an untracked coordinate reads as dead.
pub fn is_alive(buffer: &Buffer, loc: &Loc) -> (r: bool)
    requires
        buffer.wf(),
    ensures
        r == alive_in(buffer@, *loc),
{
    match buffer.lookup(loc) {
        Some(v) => v,
        None => false,
    }
}

// ----------------------------------------------------------------------------
// World
// ----------------------------------------------------------------------------

/// The store after `set(loc, alive)`: `loc` gets `alive`, and when `alive`
/// holds, every untracked neighbor of `loc` is materialized as dead.
pub open spec fn set_map(m: Map<Loc, bool>, loc: Loc, alive: bool) -> Map<Loc, bool> {
    Map::new(
        |l: Loc| m.dom().contains(l) || l == loc || (alive && nbr_seq(loc).contains(l)),
        |l: Loc|
            if l == loc {
                alive
            } else if m.dom().contains(l) {
                m[l]
            } else {
                false
            },
    )
}

/// Two generation stores plus a flag saying which one is currently readable;
/// `set` writes into the other one, and `step` swaps their roles.
#[derive(Debug)]
pub struct World {
    buffer_1: Buffer,
    buffer_2: Buffer,
    using_buffer_1: bool,
}

impl World {
    /// The readable store.
    pub closed spec fn cur_map(self) -> Map<Loc, bool> {
        if self.using_buffer_1 {
            self.buffer_1@
        } else {
            self.buffer_2@
        }
    }

    /// The store being written for the next generation.
    pub closed spec fn nxt_map(self) -> Map<Loc, bool> {
        if self.using_buffer_1 {
            self.buffer_2@
        } else {
            self.buffer_1@
        }
    }

    /// Which of the two stores is currently readable.
    pub closed spec fn using_first(self) -> bool {
        self.using_buffer_1
    }

    /// Both stores have unambiguous lookups.
    pub closed spec fn wf(self) -> bool {
        self.buffer_1.wf() && self.buffer_2.wf()
    }
}

impl Default for World {
    /// A world with both stores empty.
    fn default() -> (w: Self)
        ensures
            w.wf(),
            w.cur_map() == Map::<Loc, bool>::empty(),
            w.nxt_map() == Map::<Loc, bool>::empty(),
    {
        Self { buffer_1: Buffer::new(), buffer_2: Buffer::new(), using_buffer_1: true }
    }
}

impl Clone for Buffer {
    /// An independent copy with the same contents.
    fn clone(&self) -> (r: Self)
        ensures
            r@ == self@,
            r.wf() == self.wf(),
    {
        let n = self.cells.len();
        let mut cells: Vec<(Loc, bool)> = Vec::new();
        let mut i: usize = 0;
        while i < n
            invariant
                n == self.cells@.len(),
                0 <= i <= n,
                cells@ == self.cells@.take(i as int),
            decreases n - i,
        {
            cells.push(self.cells[i]);
            proof {
                assert(cells@ =~= self.cells@.take(i + 1));
            }
            i += 1;
        }
        proof {
            assert(cells@ =~= self.cells@);
        }
        Buffer { cells }
    }
}

impl Clone for World {
    /// A deep, fully independent duplicate: both stores are copied.
    fn clone(&self) -> (r: Self)
        ensures
            r.cur_map() == self.cur_map(),
            r.nxt_map() == self.nxt_map(),
            r.using_first() == self.using_first(),
            r.wf() == self.wf(),
    {
        Self {
            buffer_1: self.buffer_1.clone(),
            buffer_2: self.buffer_2.clone(),
            using_buffer_1: self.using_buffer_1,
        }
    }
}

impl World {
    /// The store holding the generation being displayed.
    pub fn current_buffer(&self) -> (r: &Buffer)
        ensures
            r@ == self.cur_map(),
            self.wf() ==> r.wf(),
    {
        if self.using_buffer_1 {
            &self.buffer_1
        } else {
            &self.buffer_2
        }
    }

    /// The store that the next generation is being written into.
    pub fn next_buffer(&mut self) -> (r: &mut Buffer)
        ensures
            (*r)@ == old(self).nxt_map(),
            old(self).wf() ==> r.wf(),
            final(self).cur_map() == old(self).cur_map(),
            final(self).using_first() == old(self).using_first(),
            final(self).nxt_map() == (*final(r))@,
            old(self).wf() && final(r).wf() ==> final(self).wf(),
    {
        if self.using_buffer_1 {
            &mut self.buffer_2
        } else {
            &mut self.buffer_1
        }
    }

    /// The alive state of `loc` in the current generation; untracked
    /// coordinates read as dead.
    pub fn get(&self, loc: &Loc) -> (r: bool)
        requires
            self.wf(),
        ensures
            r == alive_in(self.cur_map(), *loc),
    {
        is_alive(self.current_buffer(), loc)
    }

    /// Write `loc`'s next status into the next store, materializing every
    /// untracked neighbor as dead when `alive` holds (frontier expansion).
    pub fn set(&mut self, loc: &Loc, alive: bool)
        requires
            old(self).wf(),
        ensures
            final(self).wf(),
            final(self).cur_map() == old(self).cur_map(),
            final(self).using_first() == old(self).using_first(),
            final(self).nxt_map() == set_map(old(self).nxt_map(), *loc, alive),
    {
        if self.using_buffer_1 {
            Self::set_in(&mut self.buffer_2, loc, alive);
        } else {
            Self::set_in(&mut self.buffer_1, loc, alive);
        }
    }

    fn set_in(buf: &mut Buffer, loc: &Loc, alive: bool)
        requires
            old(buf).wf(),
        ensures
            final(buf).wf(),
            final(buf)@ == set_map(old(buf)@, *loc, alive),
    {
        let ghost m0 = buf@;
        buf.put(*loc, alive);
        if alive {
            let nbs = loc.neighbors();
            let ghost m1 = m0.insert(*loc, alive);
            let mut k: usize = 0;
            while k < 8
                invariant
                    buf.wf(),
                    nbs@ == nbr_seq(*loc),
                    m1 == m0.insert(*loc, alive),
                    0 <= k <= 8,
                    forall|l: Loc| #[trigger] buf@.dom().contains(l)
                        <==> m1.dom().contains(l) || nbr_seq(*loc).take(k as int).contains(l),
                    forall|l: Loc| m1.dom().contains(l) ==> #[trigger] buf@[l] == m1[l],
                    forall|l: Loc|
                        !m1.dom().contains(l) && #[trigger] buf@.dom().contains(l) ==> buf@[l]
                            == false,
                decreases 8 - k,
            {
                let ghost before = buf@;
                match buf.lookup(&nbs[k]) {
                    Some(_) => {
                        proof {
                            lemma_take_one_more(nbr_seq(*loc), k as int);
                        }
                    },
                    None => {
                        buf.put(nbs[k], false);
                        proof {
                            lemma_take_one_more(nbr_seq(*loc), k as int);
                        }
                    },
                }
                k += 1;
            }
            proof {
                assert(nbr_seq(*loc).take(8) =~= nbr_seq(*loc));
                assert(buf@ =~= set_map(m0, *loc, alive));
            }
        } else {
            proof {
                assert(buf@ =~= set_map(m0, *loc, alive));
            }
        }
    }
}

/// Membership in `s.take(k + 1)` is membership in `s.take(k)` or being `s[k]`.
proof fn lemma_take_one_more(s: Seq<Loc>, k: int)
    requires
        0 <= k < s.len(),
    ensures
        forall|l: Loc| #[trigger] s.take(k + 1).contains(l) <==> s.take(k).contains(l) || l == s[k],
{
    assert forall|l: Loc| #[trigger] s.take(k + 1).contains(l)
        implies s.take(k).contains(l) || l == s[k] by {
        let i = choose|i: int| 0 <= i < k + 1 && #[trigger] s.take(k + 1)[i] == l;
        if i < k {
            assert(s.take(k)[i] == l);
        }
    }
    assert forall|l: Loc| s.take(k).contains(l) || l == s[k]
        implies #[trigger] s.take(k + 1).contains(l) by {
        if s.take(k).contains(l) {
            let i = choose|i: int| 0 <= i < k && #[trigger] s.take(k)[i] == l;
            assert(s.take(k + 1)[i] == l);
        } else {
            assert(s.take(k + 1)[k] == l);
        }
    }
}

// ----------------------------------------------------------------------------
// Generation advance
// ----------------------------------------------------------------------------

/// How many coordinates of `s` are alive in `m`.
pub open spec fn count_alive(m: Map<Loc, bool>, s: Seq<Loc>) -> nat
    decreases s.len(),
{
    if s.len() == 0 {
        0
    } else {
        count_alive(m, s.drop_last()) + if alive_in(m, s.last()) {
            1nat
        } else {
            0nat
        }
    }
}

/// How many of `l`'s 8 neighbors are alive in `m`.
pub open spec fn live_nbrs(m: Map<Loc, bool>, l: Loc) -> nat {
    count_alive(m, nbr_seq(l))
}

/// A tracked coordinate with at least one live neighbor is written to the next
/// store; one with none is pruned.
pub open spec fn step_keep(m: Map<Loc, bool>, l: Loc) -> bool {
    m.dom().contains(l) && live_nbrs(m, l) > 0
}

/// The status that one step of the rule writes for `l`.
pub open spec fn step_val(m: Map<Loc, bool>, l: Loc) -> bool {
    step_keep(m, l) && rule(alive_in(m, l), live_nbrs(m, l))
}

/// The coordinates tracked after one step: the kept ones, plus the expanded
/// frontier of every cell written alive.
pub open spec fn step_dom(m: Map<Loc, bool>, l: Loc) -> bool {
    step_keep(m, l) || exists|a: Loc| #[trigger] step_val(m, a) && nbr_seq(a).contains(l)
}

/// The current store after one full generation advance over `m`.
pub open spec fn step_map(m: Map<Loc, bool>) -> Map<Loc, bool> {
    Map::new(|l: Loc| step_dom(m, l), |l: Loc| step_val(m, l))
}

/// `step_dom`/`step_val`, restricted to the snapshotted coordinates in `ss`.
spec fn partial_dom(m: Map<Loc, bool>, ss: Seq<Loc>, l: Loc) -> bool {
    (ss.contains(l) && live_nbrs(m, l) > 0) || exists|a: Loc|
        #[trigger] ss.contains(a) && live_nbrs(m, a) > 0 && rule(alive_in(m, a), live_nbrs(m, a))
            && nbr_seq(a).contains(l)
}

spec fn partial_val(m: Map<Loc, bool>, ss: Seq<Loc>, l: Loc) -> bool {
    ss.contains(l) && live_nbrs(m, l) > 0 && rule(alive_in(m, l), live_nbrs(m, l))
}

spec fn partial_map(m: Map<Loc, bool>, ss: Seq<Loc>) -> Map<Loc, bool> {
    Map::new(|l: Loc| partial_dom(m, ss, l), |l: Loc| partial_val(m, ss, l))
}

proof fn lemma_partial_set(m: Map<Loc, bool>, ss: Seq<Loc>, ss2: Seq<Loc>, loc: Loc, st: bool)
    requires
        live_nbrs(m, loc) > 0,
        st == rule(alive_in(m, loc), live_nbrs(m, loc)),
        forall|l: Loc| #[trigger] ss2.contains(l) <==> ss.contains(l) || l == loc,
    ensures
        set_map(partial_map(m, ss), loc, st) == partial_map(m, ss2),
{
    let p1 = set_map(partial_map(m, ss), loc, st);
    let p2 = partial_map(m, ss2);
    assert forall|l: Loc| p1.dom().contains(l) implies p2.dom().contains(l) by {
        if partial_dom(m, ss, l) {
            if ss.contains(l) && live_nbrs(m, l) > 0 {
                assert(ss2.contains(l));
            } else {
                let a = choose|a: Loc|
                    #[trigger] ss.contains(a) && live_nbrs(m, a) > 0
                        && rule(alive_in(m, a), live_nbrs(m, a)) && nbr_seq(a).contains(l);
                assert(ss2.contains(a));
            }
        } else if l == loc {
            assert(ss2.contains(loc));
        } else {
            assert(st && nbr_seq(loc).contains(l));
            assert(ss2.contains(loc));
        }
    }
    assert forall|l: Loc| p2.dom().contains(l) implies p1.dom().contains(l) by {
        if ss2.contains(l) && live_nbrs(m, l) > 0 {
            assert(ss.contains(l) || l == loc);
        } else {
            let a = choose|a: Loc|
                #[trigger] ss2.contains(a) && live_nbrs(m, a) > 0
                    && rule(alive_in(m, a), live_nbrs(m, a)) && nbr_seq(a).contains(l);
            if a == loc {
                assert(st && nbr_seq(loc).contains(l));
            } else {
                assert(ss.contains(a));
                assert(partial_dom(m, ss, l));
            }
        }
    }
    assert forall|l: Loc| p2.dom().contains(l) implies p1[l] == p2[l] by {
        if l == loc {
            assert(ss2.contains(loc));
        } else {
            assert(p2[l] == partial_val(m, ss2, l));
            if partial_dom(m, ss, l) {
                assert(ss2.contains(l) <==> ss.contains(l));
            } else {
                if ss.contains(l) && live_nbrs(m, l) > 0 {
                    assert(partial_dom(m, ss, l));
                }
                assert(!partial_val(m, ss2, l));
            }
        }
    }
    assert(p1 =~= p2);
}

proof fn lemma_partial_skip(m: Map<Loc, bool>, ss: Seq<Loc>, ss2: Seq<Loc>, loc: Loc)
    requires
        live_nbrs(m, loc) == 0,
        forall|l: Loc| #[trigger] ss2.contains(l) <==> ss.contains(l) || l == loc,
    ensures
        partial_map(m, ss2) == partial_map(m, ss),
{
    assert forall|l: Loc| partial_dom(m, ss2, l) == partial_dom(m, ss, l) by {
        if partial_dom(m, ss2, l) {
            if ss2.contains(l) && live_nbrs(m, l) > 0 {
                assert(ss.contains(l));
            } else {
                let a = choose|a: Loc|
                    #[trigger] ss2.contains(a) && live_nbrs(m, a) > 0
                        && rule(alive_in(m, a), live_nbrs(m, a)) && nbr_seq(a).contains(l);
                assert(a != loc);
                assert(ss.contains(a));
                assert(partial_dom(m, ss, l));
            }
        }
        if partial_dom(m, ss, l) {
            if ss.contains(l) && live_nbrs(m, l) > 0 {
                assert(ss2.contains(l));
            } else {
                let a = choose|a: Loc|
                    #[trigger] ss.contains(a) && live_nbrs(m, a) > 0
                        && rule(alive_in(m, a), live_nbrs(m, a)) && nbr_seq(a).contains(l);
                assert(ss2.contains(a));
                assert(partial_dom(m, ss2, l));
            }
        }
    }
    assert forall|l: Loc| partial_val(m, ss2, l) == partial_val(m, ss, l) by {
        if ss2.contains(l) && live_nbrs(m, l) > 0 {
            assert(ss.contains(l));
        }
        if ss.contains(l) {
            assert(ss2.contains(l));
        }
    }
    assert(partial_map(m, ss2) =~= partial_map(m, ss));
}

proof fn lemma_partial_full(m: Map<Loc, bool>, ss: Seq<Loc>)
    requires
        forall|l: Loc| #[trigger] ss.contains(l) <==> m.dom().contains(l),
    ensures
        partial_map(m, ss) == step_map(m),
{
    assert forall|l: Loc| partial_dom(m, ss, l) == step_dom(m, l) by {
        if partial_dom(m, ss, l) {
            if ss.contains(l) && live_nbrs(m, l) > 0 {
                assert(step_keep(m, l));
            } else {
                let a = choose|a: Loc|
                    #[trigger] ss.contains(a) && live_nbrs(m, a) > 0
                        && rule(alive_in(m, a), live_nbrs(m, a)) && nbr_seq(a).contains(l);
                assert(step_val(m, a) && nbr_seq(a).contains(l));
            }
        }
        if step_dom(m, l) {
            if step_keep(m, l) {
                assert(ss.contains(l));
            } else {
                let a = choose|a: Loc| #[trigger] step_val(m, a) && nbr_seq(a).contains(l);
                assert(ss.contains(a));
                assert(partial_dom(m, ss, l));
            }
        }
    }
    assert forall|l: Loc| partial_val(m, ss, l) == step_val(m, l) by {
        if ss.contains(l) {
            assert(m.dom().contains(l));
        }
        if m.dom().contains(l) {
            assert(ss.contains(l));
        }
    }
    assert(partial_map(m, ss) =~= step_map(m));
}

impl World {
    /// Advance one generation: visit a snapshot of the tracked coordinates,
    /// write each one's next status (skipping those with no live neighbor),
    /// swap the stores' roles and clear the stale one.
    pub fn step(&mut self)
        requires
            old(self).wf(),
            old(self).nxt_map() == Map::<Loc, bool>::empty(),
        ensures
            final(self).wf(),
            final(self).cur_map() == step_map(old(self).cur_map()),
            final(self).nxt_map() == Map::<Loc, bool>::empty(),
    {
        let ghost m = self.cur_map();
        let locs: Vec<Loc> = self.current_buffer().keys();
        let n = locs.len();
        proof {
            assert(self.nxt_map() =~= partial_map(m, locs@.take(0)));
        }
        let mut i: usize = 0;
        while i < n
            invariant
                self.wf(),
                self.cur_map() == m,
                self.using_first() == old(self).using_first(),
                n == locs@.len(),
                0 <= i <= n,
                forall|l: Loc| #[trigger] locs@.contains(l) <==> m.dom().contains(l),
                self.nxt_map() == partial_map(m, locs@.take(i as int)),
            decreases n - i,
        {
            let loc = locs[i];
            let alive = self.get(&loc);
            let nbs = loc.neighbors();
            let mut count: usize = 0;
            let mut k: usize = 0;
            while k < 8
                invariant
                    nbs@ == nbr_seq(loc),
                    0 <= k <= 8,
                    count <= k,
                    count == count_alive(m, nbr_seq(loc).take(k as int)),
                    self.wf(),
                    self.cur_map() == m,
                decreases 8 - k,
            {
                proof {
                    assert(nbr_seq(loc).take(k + 1).drop_last() =~= nbr_seq(loc).take(k as int));
                    assert(nbr_seq(loc).take(k + 1).last() == nbr_seq(loc)[k as int]);
                }
                if is_alive(self.current_buffer(), &nbs[k]) {
                    count += 1;
                }
                k += 1;
            }
            proof {
                assert(nbr_seq(loc).take(8) =~= nbr_seq(loc));
                assert(count == live_nbrs(m, loc));
            }
            if count > 0 {
                let st = new_status(alive, count);
                self.set(&loc, st);
                proof {
                    lemma_take_one_more(locs@, i as int);
                    assert(locs@.take(i as int).contains(loc) || loc == locs@[i as int]);
                    lemma_partial_set(
                        m,
                        locs@.take(i as int),
                        locs@.take(i + 1),
                        loc,
                        st,
                    );
                }
            } else {
                proof {
                    lemma_take_one_more(locs@, i as int);
                    lemma_partial_skip(m, locs@.take(i as int), locs@.take(i + 1), loc);
                }
            }
            i += 1;
        }
        proof {
            assert(locs@.take(n as int) =~= locs@);
            lemma_partial_full(m, locs@);
        }
        self.using_buffer_1 = !self.using_buffer_1;
        if self.using_buffer_1 {
            self.buffer_2.clear();
        } else {
            self.buffer_1.clear();
        }
    }
}

// ----------------------------------------------------------------------------
// Configuration parsing
// ----------------------------------------------------------------------------

/// The single recoverable failure: a character that is neither sentinel,
/// line feed nor carriage return, with its 0-indexed row/column.
#[derive(PartialEq, Eq, Structural, Clone, Copy, Debug)]
pub struct InvalidCharacterError {
    pub ch: char,
    pub row: usize,
    pub col: usize,
}

/// A dead or alive sentinel. The dead sentinel is checked first, so it wins
/// if both sentinels are the same character.
pub open spec fn is_cell(c: char, dead: char, alive: char) -> bool {
    c == dead || c == alive
}

/// A row delimiter: a line feed that is not claimed as a sentinel.
pub open spec fn is_newline(c: char, dead: char, alive: char) -> bool {
    !is_cell(c, dead, alive) && c == '\n'
}

/// A character the parser accepts.
pub open spec fn is_valid_char(c: char, dead: char, alive: char) -> bool {
    is_cell(c, dead, alive) || c == '\n' || c == '\r'
}

pub open spec fn all_valid(s: Seq<char>, dead: char, alive: char) -> bool {
    forall|i: int| 0 <= i < s.len() ==> is_valid_char(#[trigger] s[i], dead, alive)
}

/// How many row delimiters `s` holds: the running row count of the scan.
pub open spec fn nl_count(s: Seq<char>, dead: char, alive: char) -> nat
    decreases s.len(),
{
    if s.len() == 0 {
        0
    } else {
        nl_count(s.drop_last(), dead, alive) + if is_newline(s.last(), dead, alive) {
            1nat
        } else {
            0nat
        }
    }
}

/// How many sentinels follow the last row delimiter of `s`: the running
/// column count of the scan, reset at each row delimiter.
pub open spec fn line_cells(s: Seq<char>, dead: char, alive: char) -> nat
    decreases s.len(),
{
    if s.len() == 0 {
        0
    } else if is_newline(s.last(), dead, alive) {
        0
    } else {
        line_cells(s.drop_last(), dead, alive) + if is_cell(s.last(), dead, alive) {
            1nat
        } else {
            0nat
        }
    }
}

/// Index of the first invalid character at or after `i`, or `s.len()`.
pub open spec fn first_bad_from(s: Seq<char>, dead: char, alive: char, i: int) -> int
    decreases s.len() - i,
{
    if i < 0 || i >= s.len() {
        s.len() as int
    } else if !is_valid_char(s[i], dead, alive) {
        i
    } else {
        first_bad_from(s, dead, alive, i + 1)
    }
}

/// Index of the first invalid character of `s`, or `s.len()` if none.
pub open spec fn first_bad(s: Seq<char>, dead: char, alive: char) -> int {
    first_bad_from(s, dead, alive, 0)
}

/// Position `j` of the text holds a sentinel.
pub open spec fn is_cell_at(s: Seq<char>, dead: char, alive: char, j: int) -> bool {
    0 <= j < s.len() && is_cell(s[j], dead, alive)
}

/// Position `j` of the text holds the alive sentinel (and not the dead one).
pub open spec fn alive_at(s: Seq<char>, dead: char, alive: char, j: int) -> bool {
    is_cell_at(s, dead, alive, j) && s[j] != dead && s[j] == alive
}

/// The coordinate that the sentinel at text position `j` is placed at: its
/// running (row, col), shifted so the grid is centered on the origin using the
/// total row count and the column count of the last row.
pub open spec fn cell_loc(s: Seq<char>, dead: char, alive: char, j: int) -> Loc {
    Loc {
        row: (nl_count(s.take(j), dead, alive) - nl_count(s, dead, alive) / 2) as i64,
        col: (line_cells(s.take(j), dead, alive) - line_cells(s, dead, alive) / 2) as i64,
    }
}

/// `m` is the store that placing the first `hi` characters of `s` produces:
/// a coordinate is tracked iff some sentinel lands on it or it neighbors an
/// alive sentinel, and it is alive iff its own sentinel is the alive one.
pub open spec fn placed(s: Seq<char>, dead: char, alive: char, hi: int, m: Map<Loc, bool>) -> bool {
    &&& forall|l: Loc| #[trigger] m.dom().contains(l) <==> (exists|j: int|
        j < hi && is_cell_at(s, dead, alive, j) && #[trigger] cell_loc(s, dead, alive, j) == l)
        || (exists|j: int|
        j < hi && alive_at(s, dead, alive, j) && nbr_seq(
            #[trigger] cell_loc(s, dead, alive, j),
        ).contains(l))
    &&& forall|l: Loc| #[trigger] alive_in(m, l) <==> exists|j: int|
        j < hi && alive_at(s, dead, alive, j) && #[trigger] cell_loc(s, dead, alive, j) == l
}

/// `m` is the store that parsing all of `s` produces.
pub open spec fn parsed(s: Seq<char>, dead: char, alive: char, m: Map<Loc, bool>) -> bool {
    placed(s, dead, alive, s.len() as int, m)
}

proof fn lemma_prefix_step(s: Seq<char>, dead: char, alive: char, i: int)
    requires
        0 <= i < s.len(),
    ensures
        nl_count(s.take(i + 1), dead, alive) == nl_count(s.take(i), dead, alive) + if is_newline(
            s[i],
            dead,
            alive,
        ) {
            1nat
        } else {
            0nat
        },
        line_cells(s.take(i + 1), dead, alive) == if is_newline(s[i], dead, alive) {
            0nat
        } else {
            line_cells(s.take(i), dead, alive) + if is_cell(s[i], dead, alive) {
                1nat
            } else {
                0nat
            }
        },
{
    assert(s.take(i + 1).drop_last() =~= s.take(i));
    assert(s.take(i + 1).last() == s[i]);
}

proof fn lemma_counts_le_len(s: Seq<char>, dead: char, alive: char)
    ensures
        nl_count(s, dead, alive) <= s.len(),
        line_cells(s, dead, alive) <= s.len(),
    decreases s.len(),
{
    if s.len() > 0 {
        lemma_counts_le_len(s.drop_last(), dead, alive);
    }
}

proof fn lemma_rows_mono(s: Seq<char>, dead: char, alive: char, i1: int, i2: int)
    requires
        0 <= i1 <= i2 <= s.len(),
    ensures
        nl_count(s.take(i1), dead, alive) <= nl_count(s.take(i2), dead, alive),
    decreases i2 - i1,
{
    if i1 < i2 {
        lemma_rows_mono(s, dead, alive, i1, i2 - 1);
        lemma_prefix_step(s, dead, alive, i2 - 1);
    }
}

/// With no row delimiter in between, a sentinel strictly grows the column count.
proof fn lemma_cols_grow(s: Seq<char>, dead: char, alive: char, i1: int, i2: int)
    requires
        0 <= i1 < i2 <= s.len(),
        nl_count(s.take(i1), dead, alive) == nl_count(s.take(i2), dead, alive),
        is_cell(s[i1], dead, alive),
    ensures
        line_cells(s.take(i1), dead, alive) < line_cells(s.take(i2), dead, alive),
    decreases i2 - i1,
{
    lemma_prefix_step(s, dead, alive, i2 - 1);
    lemma_rows_mono(s, dead, alive, i1, i2 - 1);
    assert(!is_newline(s[i2 - 1], dead, alive));
    if i2 - 1 > i1 {
        lemma_cols_grow(s, dead, alive, i1, i2 - 1);
    }
}

/// Two distinct sentinel positions land on distinct coordinates.
proof fn lemma_cell_loc_inj(s: Seq<char>, dead: char, alive: char, j1: int, j2: int)
    requires
        0 <= j1 < j2 < s.len(),
        s.len() <= i64::MAX,
        is_cell(s[j1], dead, alive),
        is_cell(s[j2], dead, alive),
    ensures
        cell_loc(s, dead, alive, j1) != cell_loc(s, dead, alive, j2),
{
    lemma_counts_le_len(s, dead, alive);
    lemma_counts_le_len(s.take(j1), dead, alive);
    lemma_counts_le_len(s.take(j2), dead, alive);
    assert(s.take(j1).len() == j1);
    assert(s.take(j2).len() == j2);
    lemma_rows_mono(s, dead, alive, j1, j2);
    let rows = nl_count(s, dead, alive) / 2;
    let cols = line_cells(s, dead, alive) / 2;
    if nl_count(s.take(j1), dead, alive) == nl_count(s.take(j2), dead, alive) {
        lemma_cols_grow(s, dead, alive, j1, j2);
        let c1 = line_cells(s.take(j1), dead, alive) - cols;
        let c2 = line_cells(s.take(j2), dead, alive) - cols;
        assert(c1 < c2);
        assert(i64::MIN <= c1 <= i64::MAX);
        assert(i64::MIN <= c2 <= i64::MAX);
        assert((c1 as i64) != (c2 as i64));
    } else {
        let r1 = nl_count(s.take(j1), dead, alive) - rows;
        let r2 = nl_count(s.take(j2), dead, alive) - rows;
        assert(r1 < r2);
        assert(i64::MIN <= r1 <= i64::MAX);
        assert(i64::MIN <= r2 <= i64::MAX);
        assert((r1 as i64) != (r2 as i64));
    }
}

proof fn lemma_first_bad_lands(s: Seq<char>, dead: char, alive: char, k: int, i: int)
    requires
        0 <= k <= i <= s.len(),
        forall|j: int| k <= j < i ==> is_valid_char(#[trigger] s[j], dead, alive),
        i < s.len() ==> !is_valid_char(s[i], dead, alive),
    ensures
        first_bad_from(s, dead, alive, k) == if i < s.len() {
            i
        } else {
            s.len() as int
        },
    decreases i - k,
{
    if k < i {
        lemma_first_bad_lands(s, dead, alive, k + 1, i);
    }
}

/// Placing a non-sentinel character leaves the store's meaning unchanged.
proof fn lemma_placed_other(s: Seq<char>, dead: char, alive: char, i: int, m: Map<Loc, bool>)
    requires
        0 <= i < s.len(),
        !is_cell(s[i], dead, alive),
        placed(s, dead, alive, i, m),
    ensures
        placed(s, dead, alive, i + 1, m),
{
    assert forall|l: Loc| #[trigger] m.dom().contains(l) implies (exists|j: int|
        j < i + 1 && is_cell_at(s, dead, alive, j) && #[trigger] cell_loc(s, dead, alive, j) == l)
        || (exists|j: int|
        j < i + 1 && alive_at(s, dead, alive, j) && nbr_seq(
            #[trigger] cell_loc(s, dead, alive, j),
        ).contains(l)) by {
        if exists|j: int|
            j < i && is_cell_at(s, dead, alive, j) && #[trigger] cell_loc(s, dead, alive, j) == l {
            let j = choose|j: int|
                j < i && is_cell_at(s, dead, alive, j) && #[trigger] cell_loc(s, dead, alive, j)
                    == l;
            assert(j < i + 1 && is_cell_at(s, dead, alive, j) && cell_loc(s, dead, alive, j) == l);
        } else {
            let j = choose|j: int|
                j < i && alive_at(s, dead, alive, j) && nbr_seq(
                    #[trigger] cell_loc(s, dead, alive, j),
                ).contains(l);
            assert(j < i + 1 && alive_at(s, dead, alive, j) && nbr_seq(
                cell_loc(s, dead, alive, j),
            ).contains(l));
        }
    }
    assert forall|l: Loc| (exists|j: int|
        j < i + 1 && is_cell_at(s, dead, alive, j) && #[trigger] cell_loc(s, dead, alive, j) == l)
        || (exists|j: int|
        j < i + 1 && alive_at(s, dead, alive, j) && nbr_seq(
            #[trigger] cell_loc(s, dead, alive, j),
        ).contains(l)) implies #[trigger] m.dom().contains(l) by {
        if exists|j: int|
            j < i + 1 && is_cell_at(s, dead, alive, j) && #[trigger] cell_loc(s, dead, alive, j)
                == l {
            let j = choose|j: int|
                j < i + 1 && is_cell_at(s, dead, alive, j) && #[trigger] cell_loc(s, dead, alive, j)
                    == l;
            assert(j < i);
        } else {
            let j = choose|j: int|
                j < i + 1 && alive_at(s, dead, alive, j) && nbr_seq(
                    #[trigger] cell_loc(s, dead, alive, j),
                ).contains(l);
            assert(j < i);
        }
    }
    assert forall|l: Loc| #[trigger] alive_in(m, l) <==> exists|j: int|
        j < i + 1 && alive_at(s, dead, alive, j) && #[trigger] cell_loc(s, dead, alive, j) == l by {
        if exists|j: int|
            j < i + 1 && alive_at(s, dead, alive, j) && #[trigger] cell_loc(s, dead, alive, j)
                == l {
            let j = choose|j: int|
                j < i + 1 && alive_at(s, dead, alive, j) && #[trigger] cell_loc(s, dead, alive, j)
                    == l;
            assert(j < i);
        }
    }
}

/// Placing the sentinel at `i` turns the store denoted by the first `i`
/// characters into the one denoted by the first `i + 1`.
proof fn lemma_placed_cell(s: Seq<char>, dead: char, alive: char, i: int, m: Map<Loc, bool>)
    requires
        0 <= i < s.len(),
        s.len() <= i64::MAX,
        is_cell(s[i], dead, alive),
        placed(s, dead, alive, i, m),
    ensures
        placed(
            s,
            dead,
            alive,
            i + 1,
            set_map(m, cell_loc(s, dead, alive, i), alive_at(s, dead, alive, i)),
        ),
{
    let loc = cell_loc(s, dead, alive, i);
    let av = alive_at(s, dead, alive, i);
    let m2 = set_map(m, loc, av);
    assert forall|j: int| 0 <= j < i && is_cell_at(s, dead, alive, j) implies cell_loc(
        s,
        dead,
        alive,
        j,
    ) != loc by {
        lemma_cell_loc_inj(s, dead, alive, j, i);
    }
    assert forall|l: Loc| #[trigger] m2.dom().contains(l) implies (exists|j: int|
        j < i + 1 && is_cell_at(s, dead, alive, j) && #[trigger] cell_loc(s, dead, alive, j) == l)
        || (exists|j: int|
        j < i + 1 && alive_at(s, dead, alive, j) && nbr_seq(
            #[trigger] cell_loc(s, dead, alive, j),
        ).contains(l)) by {
        if m.dom().contains(l) {
            if exists|j: int|
                j < i && is_cell_at(s, dead, alive, j) && #[trigger] cell_loc(s, dead, alive, j)
                    == l {
                let j = choose|j: int|
                    j < i && is_cell_at(s, dead, alive, j) && #[trigger] cell_loc(s, dead, alive, j)
                        == l;
                assert(j < i + 1 && is_cell_at(s, dead, alive, j) && cell_loc(s, dead, alive, j)
                    == l);
            } else {
                let j = choose|j: int|
                    j < i && alive_at(s, dead, alive, j) && nbr_seq(
                        #[trigger] cell_loc(s, dead, alive, j),
                    ).contains(l);
                assert(j < i + 1 && alive_at(s, dead, alive, j) && nbr_seq(
                    cell_loc(s, dead, alive, j),
                ).contains(l));
            }
        } else if l == loc {
            assert(i < i + 1 && is_cell_at(s, dead, alive, i) && cell_loc(s, dead, alive, i) == l);
        } else {
            assert(av && nbr_seq(loc).contains(l));
            assert(i < i + 1 && alive_at(s, dead, alive, i) && nbr_seq(
                cell_loc(s, dead, alive, i),
            ).contains(l));
        }
    }
    assert forall|l: Loc| (exists|j: int|
        j < i + 1 && is_cell_at(s, dead, alive, j) && #[trigger] cell_loc(s, dead, alive, j) == l)
        || (exists|j: int|
        j < i + 1 && alive_at(s, dead, alive, j) && nbr_seq(
            #[trigger] cell_loc(s, dead, alive, j),
        ).contains(l)) implies #[trigger] m2.dom().contains(l) by {
        if exists|j: int|
            j < i + 1 && is_cell_at(s, dead, alive, j) && #[trigger] cell_loc(s, dead, alive, j)
                == l {
            let j = choose|j: int|
                j < i + 1 && is_cell_at(s, dead, alive, j) && #[trigger] cell_loc(s, dead, alive, j)
                    == l;
            if j < i {
                assert(m.dom().contains(l));
            } else {
                assert(l == loc);
            }
        } else {
            let j = choose|j: int|
                j < i + 1 && alive_at(s, dead, alive, j) && nbr_seq(
                    #[trigger] cell_loc(s, dead, alive, j),
                ).contains(l);
            if j < i {
                assert(m.dom().contains(l));
            } else {
                assert(av && nbr_seq(loc).contains(l));
            }
        }
    }
    assert forall|l: Loc| #[trigger] alive_in(m2, l) implies exists|j: int|
        j < i + 1 && alive_at(s, dead, alive, j) && #[trigger] cell_loc(s, dead, alive, j) == l by {
        if l == loc {
            assert(av);
            assert(i < i + 1 && alive_at(s, dead, alive, i) && cell_loc(s, dead, alive, i) == l);
        } else {
            if m.dom().contains(l) {
                assert(m2[l] == m[l]);
                assert(alive_in(m, l));
                let j = choose|j: int|
                    j < i && alive_at(s, dead, alive, j) && #[trigger] cell_loc(s, dead, alive, j)
                        == l;
                assert(j < i + 1 && alive_at(s, dead, alive, j) && cell_loc(s, dead, alive, j)
                    == l);
            } else {
                assert(m2[l] == false);
            }
        }
    }
    assert forall|l: Loc| (exists|j: int|
        j < i + 1 && alive_at(s, dead, alive, j) && #[trigger] cell_loc(s, dead, alive, j)
            == l) implies #[trigger] alive_in(m2, l) by {
        let j = choose|j: int|
            j < i + 1 && alive_at(s, dead, alive, j) && #[trigger] cell_loc(s, dead, alive, j) == l;
        if j < i {
            assert(alive_in(m, l));
            assert(l != loc);
            assert(m2.dom().contains(l) && m2[l] == m[l]);
        } else {
            assert(l == loc && av);
            assert(m2.dom().contains(l) && m2[l] == av);
        }
    }
}

impl World {
    /// Build a world from a character grid: rows delimited by line feeds,
    /// carriage returns tolerated, each sentinel placed so the grid is
    /// centered on the origin (columns centered by the last row's width).
    /// The first character outside the accepted set aborts the parse.
    pub fn from_configuration(data: &str, dead_char: char, alive_char: char) -> (r: Result<
        World,
        InvalidCharacterError,
    >)
        requires
            data@.len() <= i64::MAX,
        ensures
            r is Ok <==> all_valid(data@, dead_char, alive_char),
            r is Ok ==> (r->Ok_0).wf(),
            r is Ok ==> (r->Ok_0).nxt_map() == Map::<Loc, bool>::empty(),
            r is Ok ==> parsed(data@, dead_char, alive_char, (r->Ok_0).cur_map()),
            r is Err ==> {
                let j = first_bad(data@, dead_char, alive_char);
                &&& (r->Err_0).ch == data@[j]
                &&& (r->Err_0).row == nl_count(data@.take(j), dead_char, alive_char)
                &&& (r->Err_0).col == line_cells(data@.take(j), dead_char, alive_char)
            },
    {
        let ghost s = data@;
        let n = data.unicode_len();
        let mut max_row: usize = 0;
        let mut max_col: usize = 0;
        let mut i: usize = 0;
        while i < n
            invariant
                s == data@,
                n == s.len() <= i64::MAX,
                0 <= i <= n,
                max_row == nl_count(s.take(i as int), dead_char, alive_char),
                max_col == line_cells(s.take(i as int), dead_char, alive_char),
                max_row <= i,
                max_col <= i,
                forall|j: int| 0 <= j < i ==> is_valid_char(#[trigger] s[j], dead_char, alive_char),
            decreases n - i,
        {
            let c = data.get_char(i);
            proof {
                lemma_prefix_step(s, dead_char, alive_char, i as int);
            }
            if c == dead_char || c == alive_char {
                max_col += 1;
            } else if c == '\n' {
                max_col = 0;
                max_row += 1;
            } else if c == '\r' {
            } else {
                proof {
                    lemma_first_bad_lands(s, dead_char, alive_char, 0, i as int);
                }
                return Err(InvalidCharacterError { ch: c, row: max_row, col: max_col });
            }
            i += 1;
        }
        proof {
            assert(s.take(n as int) =~= s);
        }
        let mut world = World::default();
        let mut row: usize = 0;
        let mut col: usize = 0;
        i = 0;
        while i < n
            invariant
                s == data@,
                n == s.len() <= i64::MAX,
                0 <= i <= n,
                all_valid(s, dead_char, alive_char),
                max_row == nl_count(s, dead_char, alive_char),
                max_col == line_cells(s, dead_char, alive_char),
                row == nl_count(s.take(i as int), dead_char, alive_char),
                col == line_cells(s.take(i as int), dead_char, alive_char),
                row <= i,
                col <= i,
                world.wf(),
                world.cur_map() == Map::<Loc, bool>::empty(),
                placed(s, dead_char, alive_char, i as int, world.nxt_map()),
            decreases n - i,
        {
            let c = data.get_char(i);
            proof {
                lemma_prefix_step(s, dead_char, alive_char, i as int);
            }
            if c == dead_char || c == alive_char {
                let lr: i64 = (row as i64) - ((max_row / 2) as i64);
                let lc: i64 = (col as i64) - ((max_col / 2) as i64);
                let av = !(c == dead_char);
                proof {
                    assert(Loc { row: lr, col: lc } == cell_loc(s, dead_char, alive_char, i as int));
                    assert(av == alive_at(s, dead_char, alive_char, i as int));
                    lemma_placed_cell(s, dead_char, alive_char, i as int, world.nxt_map());
                }
                world.set(&Loc::new(lr, lc), av);
                col += 1;
            } else if c == '\n' {
                proof {
                    lemma_placed_other(s, dead_char, alive_char, i as int, world.nxt_map());
                }
                row += 1;
                col = 0;
            } else {
                proof {
                    assert(c == '\r');
                    lemma_placed_other(s, dead_char, alive_char, i as int, world.nxt_map());
                }
            }
            i += 1;
        }
        proof {
            assert(s.take(n as int) =~= s);
        }
        world.using_buffer_1 = !world.using_buffer_1;
        Ok(world)
    }
}

} // verus!
