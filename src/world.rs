//! The sparse Wireworld grid: a dense arena of stored cells, each with the
//! ids of its stored king-neighbors, and maps between ids and points.

use std::collections::HashMap;
use vstd::prelude::*;
use crate::common::{adjacent, chebyshev, in_i32, next_state, CellState, Point};

verus! {

broadcast use vstd::std_specs::hash::group_hash_axioms;

/// A stored (non-empty) cell state.
#[derive(Clone, Copy, Debug, PartialEq, Eq, Structural)]
enum CellStateInternal {
    Alive,
    Dead,
    Wire,
}

spec fn expel_spec(c: Option<CellStateInternal>) -> CellState {
    match c {
        Some(CellStateInternal::Alive) => CellState::Alive,
        Some(CellStateInternal::Dead) => CellState::Dead,
        Some(CellStateInternal::Wire) => CellState::Wire,
        None => CellState::Empty,
    }
}

fn cell_state_expel(c: Option<CellStateInternal>) -> (r: CellState)
    ensures
        r == expel_spec(c),
{
    match c {
        Some(CellStateInternal::Alive) => CellState::Alive,
        Some(CellStateInternal::Dead) => CellState::Dead,
        Some(CellStateInternal::Wire) => CellState::Wire,
        None => CellState::Empty,
    }
}

fn cell_state_admit(c: CellState) -> (r: Option<CellStateInternal>)
    ensures
        expel_spec(r) == c,
{
    match c {
        CellState::Alive => Some(CellStateInternal::Alive),
        CellState::Dead => Some(CellStateInternal::Dead),
        CellState::Wire => Some(CellStateInternal::Wire),
        CellState::Empty => None,
    }
}

/// What a map of stored cells holds at `p`.
pub open spec fn cell_of(m: Map<Point, CellState>, p: Point) -> CellState {
    if m.contains_key(p) {
        m[p]
    } else {
        CellState::Empty
    }
}

/// What a map of stored cells holds at the integer coordinates `(x, y)`;
/// coordinates outside the `i32` lattice hold `Empty`.
pub open spec fn cell_at(m: Map<Point, CellState>, x: int, y: int) -> CellState {
    if in_i32(x) && in_i32(y) {
        cell_of(m, Point { x: x as i32, y: y as i32 })
    } else {
        CellState::Empty
    }
}

/// The map of stored cells after setting `p` to `s`.
pub open spec fn with_cell(m: Map<Point, CellState>, p: Point, s: CellState) -> Map<
    Point,
    CellState,
> {
    if s == CellState::Empty {
        m.remove(p)
    } else {
        m.insert(p, s)
    }
}

/// 1 when the cell at `(x, y)` is `Alive`, else 0.
pub open spec fn alive_at(m: Map<Point, CellState>, x: int, y: int) -> int {
    if cell_at(m, x, y) == CellState::Alive {
        1
    } else {
        0
    }
}

/// How many of the eight king-neighbors of `p` are `Alive`.
pub open spec fn alive_neighbors(m: Map<Point, CellState>, p: Point) -> int {
    let x = p.x as int;
    let y = p.y as int;
    alive_at(m, x - 1, y - 1) + alive_at(m, x, y - 1) + alive_at(m, x + 1, y - 1) + alive_at(
        m,
        x - 1,
        y,
    ) + alive_at(m, x + 1, y) + alive_at(m, x - 1, y + 1) + alive_at(m, x, y + 1) + alive_at(
        m,
        x + 1,
        y + 1,
    )
}

/// One Wireworld tick of the stored cells, all read from the same prior map.
/// No cell enters or leaves.
pub open spec fn stepped(m: Map<Point, CellState>) -> Map<Point, CellState> {
    Map::new(|p: Point| m.contains_key(p), |p: Point| next_state(m[p], alive_neighbors(m, p)))
}

/// The key of a point in the id map: both coordinates shifted into `u32`.
spec fn point_key(p: Point) -> u64 {
    ((p.x + 0x8000_0000) * 0x1_0000_0000 + (p.y + 0x8000_0000)) as u64
}

proof fn lemma_point_key(p: Point, q: Point)
    ensures
        point_key(p) == (p.x + 0x8000_0000) * 0x1_0000_0000 + (p.y + 0x8000_0000),
        point_key(p) == point_key(q) ==> p == q,
{
    let a = p.x + 0x8000_0000;
    let b = p.y + 0x8000_0000;
    let c = q.x + 0x8000_0000;
    let d = q.y + 0x8000_0000;
    assert(0 <= a * 0x1_0000_0000 <= 0xffff_ffff * 0x1_0000_0000) by (nonlinear_arith)
        requires
            0 <= a <= 0xffff_ffff,
    ;
    assert(0 <= c * 0x1_0000_0000 <= 0xffff_ffff * 0x1_0000_0000) by (nonlinear_arith)
        requires
            0 <= c <= 0xffff_ffff,
    ;
    if a * 0x1_0000_0000 + b == c * 0x1_0000_0000 + d {
        assert(a == c && b == d) by (nonlinear_arith)
            requires
                a * 0x1_0000_0000 + b == c * 0x1_0000_0000 + d,
                0 <= b <= 0xffff_ffff,
                0 <= d <= 0xffff_ffff,
        ;
    }
}

fn point_key_exec(p: Point) -> (k: u64)
    ensures
        k == point_key(p),
{
    proof {
        lemma_point_key(p, p);
    }
    let a: u64 = (p.x as i64 + 0x8000_0000i64) as u64;
    let b: u64 = (p.y as i64 + 0x8000_0000i64) as u64;
    assert(a * 0x1_0000_0000 <= 0xffff_ffff * 0x1_0000_0000) by (nonlinear_arith)
        requires
            a <= 0xffff_ffff,
    ;
    a * 0x1_0000_0000 + b
}

/// The eight king offsets, in the order in which a new cell looks for
/// its neighbors: the row above, the two sides, the row below.
spec fn king_dx(k: int) -> int {
    if k == 0 || k == 3 || k == 5 {
        -1
    } else if k == 1 || k == 6 {
        0
    } else {
        1
    }
}

spec fn king_dy(k: int) -> int {
    if k < 3 {
        -1
    } else if k < 5 {
        0
    } else {
        1
    }
}

/// The position of the offset `(dx, dy)` among the king offsets, or 8.
spec fn offset_index(dx: int, dy: int) -> int {
    if dy == -1 && -1 <= dx <= 1 {
        dx + 1
    } else if dy == 0 && dx == -1 {
        3
    } else if dy == 0 && dx == 1 {
        4
    } else if dy == 1 && -1 <= dx <= 1 {
        dx + 6
    } else {
        8
    }
}

/// Which king offset leads from `p` to `q` (8 when none does).
spec fn offset_of(p: Point, q: Point) -> int {
    offset_index(q.x - p.x, q.y - p.y)
}

proof fn lemma_offset_of(p: Point, q: Point)
    ensures
        0 <= offset_of(p, q) <= 8,
        offset_of(p, q) < 8 <==> adjacent(p, q),
        offset_of(p, q) < 8 ==> q.x == p.x + king_dx(offset_of(p, q)) && q.y == p.y + king_dy(
            offset_of(p, q),
        ),
        adjacent(p, q) == adjacent(q, p),
{
}

fn king_offset(k: usize) -> (r: (i64, i64))
    requires
        k < 8,
    ensures
        r.0 == king_dx(k as int),
        r.1 == king_dy(k as int),
{
    let dx: i64 = if k == 0 || k == 3 || k == 5 {
        -1
    } else if k == 1 || k == 6 {
        0
    } else {
        1
    };
    let dy: i64 = if k < 3 {
        -1
    } else if k < 5 {
        0
    } else {
        1
    };
    (dx, dy)
}

proof fn lemma_push_contains<T>(s: Seq<T>, x: T, y: T)
    ensures
        s.push(x).contains(y) <==> s.contains(y) || y == x,
        s.no_duplicates() && !s.contains(x) ==> s.push(x).no_duplicates(),
{
    if s.contains(y) {
        let t = choose|t: int| 0 <= t < s.len() && s[t] == y;
        assert(s.push(x)[t] == y);
    }
    if y == x {
        assert(s.push(x)[s.len() as int] == y);
    }
    if s.push(x).contains(y) && y != x {
        let t = choose|t: int| 0 <= t < s.push(x).len() && s.push(x)[t] == y;
        assert(s[t] == y);
    }
    if s.no_duplicates() && !s.contains(x) {
        assert forall|a: int, b: int| 0 <= a < b < s.push(x).len() implies s.push(x)[a] != s.push(
            x,
        )[b] by {
            if b == s.len() {
                assert(s[a] != x);
            }
        }
    }
}

proof fn lemma_remove_at(s: Seq<usize>, t: int)
    requires
        s.no_duplicates(),
        0 <= t < s.len(),
    ensures
        s.remove(t).no_duplicates(),
        forall|y: usize| #[trigger] s.remove(t).contains(y) <==> s.contains(y) && y != s[t],
{
    let r = s.remove(t);
    assert forall|y: usize| #[trigger] r.contains(y) <==> s.contains(y) && y != s[t] by {
        if r.contains(y) {
            let u = choose|u: int| 0 <= u < r.len() && r[u] == y;
            if u < t {
                assert(s[u] == y);
            } else {
                assert(s[u + 1] == y);
            }
        }
        if s.contains(y) && y != s[t] {
            let u = choose|u: int| 0 <= u < s.len() && s[u] == y;
            if u < t {
                assert(r[u] == y);
            } else {
                assert(r[u - 1] == y);
            }
        }
    }
}

proof fn lemma_update_at(s: Seq<usize>, t: int, z: usize)
    requires
        s.no_duplicates(),
        0 <= t < s.len(),
        !s.contains(z),
    ensures
        s.update(t, z).no_duplicates(),
        forall|y: usize| #[trigger]
            s.update(t, z).contains(y) <==> (s.contains(y) && y != s[t]) || y == z,
{
    let r = s.update(t, z);
    assert(r[t] == z);
    assert forall|y: usize| #[trigger] r.contains(y) <==> (s.contains(y) && y != s[t]) || y == z by {
        if r.contains(y) && y != z {
            let u = choose|u: int| 0 <= u < r.len() && r[u] == y;
            assert(s[u] == y);
        }
        if s.contains(y) && y != s[t] {
            let u = choose|u: int| 0 <= u < s.len() && s[u] == y;
            assert(r[u] == y);
        }
    }
    assert forall|a: int, b: int| 0 <= a < b < r.len() implies r[a] != r[b] by {
        if a == t {
            assert(s.contains(r[b]));
        } else if b == t {
            assert(s.contains(r[a]));
        }
    }
}

/// Removes the one occurrence of `x` from `v`, if any.
fn remove_value(v: &mut Vec<usize>, x: usize)
    requires
        old(v)@.no_duplicates(),
    ensures
        final(v)@.no_duplicates(),
        forall|y: usize| #[trigger] final(v)@.contains(y) <==> old(v)@.contains(y) && y != x,
{
    let mut t: usize = 0;
    while t < v.len()
        invariant
            v@ == old(v)@,
            old(v)@.no_duplicates(),
            t <= v@.len(),
            forall|u: int| 0 <= u < t ==> v@[u] != x,
        decreases v@.len() - t,
    {
        if v[t] == x {
            proof {
                lemma_remove_at(v@, t as int);
            }
            v.remove(t);
            return ;
        }
        t += 1;
    }
    assert forall|y: usize| #[trigger] v@.contains(y) implies y != x by {
        let u = choose|u: int| 0 <= u < v@.len() && v@[u] == y;
        assert(v@[u] != x);
    }
}

/// Replaces the one occurrence of `from` in `v` by `to`.
fn replace_value(v: &mut Vec<usize>, from: usize, to: usize)
    requires
        old(v)@.no_duplicates(),
        old(v)@.contains(from),
        !old(v)@.contains(to),
    ensures
        final(v)@.no_duplicates(),
        forall|y: usize| #[trigger]
            final(v)@.contains(y) <==> (old(v)@.contains(y) && y != from) || y == to,
{
    let mut t: usize = 0;
    while t < v.len()
        invariant
            v@ == old(v)@,
            old(v)@.no_duplicates(),
            !old(v)@.contains(to),
            v@.contains(from),
            t <= v@.len(),
            forall|u: int| 0 <= u < t ==> v@[u] != from,
        decreases v@.len() - t,
    {
        if v[t] == from {
            proof {
                lemma_update_at(v@, t as int, to);
            }
            v[t] = to;
            return ;
        }
        t += 1;
    }
    proof {
        let u = choose|u: int| 0 <= u < v@.len() && v@[u] == from;
        assert(v@[u] != from);
    }
}

/// The number of ids `x < i` that are `Alive` and whose list holds `j`.
spec fn pushed(states: Seq<CellStateInternal>, lists: Seq<Seq<usize>>, j: usize, i: int) -> nat
    decreases i,
{
    if i <= 0 {
        0
    } else {
        pushed(states, lists, j, i - 1) + if states[i - 1] == CellStateInternal::Alive
            && lists[i - 1].contains(j) {
            1nat
        } else {
            0nat
        }
    }
}

/// The number of ids `x < i` that are `Alive` and whose point lies at a king
/// offset from `p` with index in `lo..hi`.
spec fn alive_offsets(
    states: Seq<CellStateInternal>,
    points: Seq<Point>,
    p: Point,
    lo: int,
    hi: int,
    i: int,
) -> nat
    decreases i,
{
    if i <= 0 {
        0
    } else {
        alive_offsets(states, points, p, lo, hi, i - 1) + if states[i - 1]
            == CellStateInternal::Alive && lo <= offset_of(p, points[i - 1]) < hi {
            1nat
        } else {
            0nat
        }
    }
}

/// The sum of `alive_at` over the first `k` king offsets of `p`.
spec fn alive_first_offsets(m: Map<Point, CellState>, p: Point, k: int) -> int
    decreases k,
{
    if k <= 0 {
        0
    } else {
        alive_first_offsets(m, p, k - 1) + alive_at(m, p.x + king_dx(k - 1), p.y + king_dy(k - 1))
    }
}

proof fn lemma_pushed_bound(states: Seq<CellStateInternal>, lists: Seq<Seq<usize>>, j: usize, i: int)
    requires
        i >= 0,
    ensures
        pushed(states, lists, j, i) <= i,
    decreases i,
{
    if i > 0 {
        lemma_pushed_bound(states, lists, j, i - 1);
    }
}

proof fn lemma_alive_offsets_split(
    states: Seq<CellStateInternal>,
    points: Seq<Point>,
    p: Point,
    k: int,
    i: int,
)
    requires
        0 <= k,
        i >= 0,
    ensures
        alive_offsets(states, points, p, 0, k + 1, i) == alive_offsets(states, points, p, 0, k, i)
            + alive_offsets(states, points, p, k, k + 1, i),
    decreases i,
{
    if i > 0 {
        lemma_alive_offsets_split(states, points, p, k, i - 1);
    }
}

/// The stored state that stands for a non-empty `c`.
spec fn admitted(c: CellState) -> CellStateInternal {
    match c {
        CellState::Alive => CellStateInternal::Alive,
        CellState::Dead => CellStateInternal::Dead,
        _ => CellStateInternal::Wire,
    }
}

proof fn lemma_zero_offsets(states: Seq<CellStateInternal>, points: Seq<Point>, p: Point, i: int)
    requires
        i >= 0,
    ensures
        alive_offsets(states, points, p, 0, 0, i) == 0,
    decreases i,
{
    if i > 0 {
        lemma_zero_offsets(states, points, p, i - 1);
    }
}

fn copy_ids(v: &Vec<usize>) -> (r: Vec<usize>)
    ensures
        r@ == v@,
{
    let mut r: Vec<usize> = Vec::new();
    let mut i: usize = 0;
    while i < v.len()
        invariant
            i <= v@.len(),
            r@ == v@.subrange(0, i as int),
        decreases v@.len() - i,
    {
        r.push(v[i]);
        i += 1;
        assert(r@ =~= v@.subrange(0, i as int));
    }
    assert(v@.subrange(0, i as int) =~= v@);
    r
}

/// The arena behind `World`; `wf` is its invariant.
struct Grid {
    ids: HashMap<u64, usize>,
    points: Vec<Point>,
    states: Vec<CellStateInternal>,
    nbors: Vec<Vec<usize>>,
}

impl Grid {
    /// A copy of the grid, to hand out as a published version.
    fn duplicate(&self) -> (r: Grid)
        requires
            self.wf(),
        ensures
            r.wf(),
            r.model() == self.model(),
    {
        let ids = self.ids.clone();
        let mut points: Vec<Point> = Vec::new();
        let mut states: Vec<CellStateInternal> = Vec::new();
        let mut nbors: Vec<Vec<usize>> = Vec::new();
        let mut i: usize = 0;
        while i < self.states.len()
            invariant
                self.wf(),
                i <= self.len(),
                points@ == self.points@.subrange(0, i as int),
                states@ == self.states@.subrange(0, i as int),
                nbors@.len() == i,
                forall|t: int| 0 <= t < i ==> (#[trigger] nbors@[t])@ == self.lists()[t],
            decreases self.len() - i,
        {
            points.push(self.points[i]);
            states.push(self.states[i]);
            nbors.push(copy_ids(&self.nbors[i]));
            i += 1;
            assert(points@ =~= self.points@.subrange(0, i as int));
            assert(states@ =~= self.states@.subrange(0, i as int));
        }
        let r = Grid { ids, points, states, nbors };
        assert(r.points@ =~= self.points@);
        assert(r.states@ =~= self.states@);
        assert(r.lists() =~= self.lists());
        assert(r.model() =~= self.model());
        r
    }

    spec fn lists(&self) -> Seq<Seq<usize>> {
        self.nbors@.map_values(|v: Vec<usize>| v@)
    }

    spec fn len(&self) -> int {
        self.states@.len() as int
    }

    spec fn ids_ok(&self) -> bool {
        let n = self.len();
        &&& self.points@.len() == n
        &&& forall|i: int|
            #![trigger self.points@[i]]
            0 <= i < n ==> self.ids@.contains_key(point_key(self.points@[i]))
                && self.ids@[point_key(self.points@[i])] == i
        &&& forall|k: u64|
            #[trigger] self.ids@.contains_key(k) ==> self.ids@[k] < n && point_key(
                self.points@[self.ids@[k] as int],
            ) == k
    }

    spec fn graph_ok(&self) -> bool {
        let n = self.len();
        let l = self.lists();
        &&& l.len() == n
        &&& forall|i: int| 0 <= i < n ==> (#[trigger] l[i]).no_duplicates()
        &&& forall|i: int, t: int| 0 <= i < n && 0 <= t < l[i].len() ==> #[trigger] l[i][t] < n
        &&& forall|i: int, j: usize|
            #![trigger l[i].contains(j)]
            #![trigger adjacent(self.points@[i], self.points@[j as int])]
            0 <= i < n && j < n ==> (l[i].contains(j) <==> i != j && adjacent(
                self.points@[i],
                self.points@[j as int],
            ))
    }

    proof fn lemma_id_of(&self, a: int)
        requires
            self.ids_ok(),
            0 <= a < self.len(),
        ensures
            self.ids@.contains_key(point_key(self.points@[a])),
            self.ids@[point_key(self.points@[a])] == a,
    {
    }

    spec fn wf(&self) -> bool {
        self.ids_ok() && self.graph_ok()
    }

    spec fn model(&self) -> Map<Point, CellState> {
        Map::new(
            |p: Point| self.ids@.contains_key(point_key(p)),
            |p: Point| expel_spec(Some(self.states@[self.ids@[point_key(p)] as int])),
        )
    }

    fn new() -> (g: Grid)
        ensures
            g.wf(),
            g.model() == Map::<Point, CellState>::empty(),
    {
        let g = Grid { ids: HashMap::new(), points: Vec::new(), states: Vec::new(), nbors: Vec::new() };
        assert(g.lists() =~= Seq::<Seq<usize>>::empty());
        assert(g.model() =~= Map::<Point, CellState>::empty());
        g
    }

    fn get(&self, p: Point) -> (r: CellState)
        requires
            self.wf(),
        ensures
            r == cell_of(self.model(), p),
    {
        let k = point_key_exec(p);
        match self.ids.get(&k) {
            Some(i) => cell_state_expel(Some(self.states[*i])),
            None => CellState::Empty,
        }
    }

    /// Stores `p`, which is absent, and links it with its stored neighbors.
    fn insert_new(&mut self, p: Point, s: CellStateInternal)
        requires
            old(self).wf(),
            !old(self).model().contains_key(p),
        ensures
            final(self).wf(),
            final(self).model() == old(self).model().insert(p, expel_spec(Some(s))),
    {
        let n = self.states.len();
        let mut list: Vec<usize> = Vec::new();
        let mut k: usize = 0;
        while k < 8
            invariant
                k <= 8,
                n == self.len(),
                n == old(self).len(),
                old(self).wf(),
                !old(self).ids@.contains_key(point_key(p)),
                self.ids@ == old(self).ids@,
                self.points@ == old(self).points@,
                self.states@ == old(self).states@,
                self.nbors@.len() == n,
                forall|j: int|
                    0 <= j < n ==> #[trigger] self.lists()[j] == if offset_of(
                        p,
                        self.points@[j],
                    ) < k {
                        old(self).lists()[j].push(n)
                    } else {
                        old(self).lists()[j]
                    },
                list@.no_duplicates(),
                forall|t: int| 0 <= t < list@.len() ==> #[trigger] list@[t] < n,
                forall|j: usize|
                    j < n ==> (#[trigger] list@.contains(j) <==> offset_of(
                        p,
                        self.points@[j as int],
                    ) < k),
            decreases 8 - k,
        {
            let (dx, dy) = king_offset(k);
            let qx: i64 = p.x as i64 + dx;
            let qy: i64 = p.y as i64 + dy;
            if i32::MIN as i64 <= qx && qx <= i32::MAX as i64 && i32::MIN as i64 <= qy && qy
                <= i32::MAX as i64 {
                let q = Point { x: qx as i32, y: qy as i32 };
                let key = point_key_exec(q);
                match self.ids.get(&key) {
                    Some(j) => {
                        let j = *j;
                        proof {
                            lemma_point_key(self.points@[j as int], q);
                            lemma_offset_of(p, q);
                            assert(!list@.contains(j));
                            lemma_push_contains(list@, j, j);
                        }
                        let ghost before = list@;
                        let ghost lists_before = self.lists();
                        list.push(j);
                        self.nbors[j].push(n);
                        assert(self.lists() =~= lists_before.update(
                            j as int,
                            lists_before[j as int].push(n),
                        ));
                        proof {
                            assert forall|j2: usize| j2 < n implies (list@.contains(j2) <==> offset_of(
                                p,
                                self.points@[j2 as int],
                            ) < k + 1) by {
                                lemma_point_key(self.points@[j2 as int], q);
                                lemma_push_contains(before, j, j2);
                            }
                            assert forall|j2: int| 0 <= j2 < n implies #[trigger] self.lists()[j2] == if offset_of(
                                p,
                                self.points@[j2],
                            ) < k + 1 {
                                old(self).lists()[j2].push(n)
                            } else {
                                old(self).lists()[j2]
                            } by {
                                lemma_point_key(self.points@[j2], q);
                                lemma_offset_of(p, self.points@[j2]);
                                assert(lists_before[j2] == if offset_of(p, self.points@[j2]) < k {
                                    old(self).lists()[j2].push(n)
                                } else {
                                    old(self).lists()[j2]
                                });
                            }
                        }
                    },
                    None => {
                        proof {
                            assert forall|j2: int| 0 <= j2 < n implies offset_of(p, self.points@[j2]) != k by {
                                lemma_offset_of(p, self.points@[j2]);
                            }
                        }
                    },
                }
            } else {
                proof {
                    assert forall|j2: int| 0 <= j2 < n implies offset_of(p, self.points@[j2]) != k by {
                        lemma_offset_of(p, self.points@[j2]);
                    }
                }
            }
            k += 1;
        }
        let key = point_key_exec(p);
        let ghost pre = self.lists();
        self.states.push(s);
        self.points.push(p);
        self.nbors.push(list);
        self.ids.insert(key, n);
        proof {
            let l = self.lists();
            let ol = old(self).lists();
            assert(l =~= pre.push(list@));
            assert forall|i: int| 0 <= i < n implies #[trigger] l[i] == if offset_of(p, self.points@[i]) < 8 {
                ol[i].push(n)
            } else {
                ol[i]
            } by {
                assert(pre[i] == l[i]);
            }
            assert forall|i: int| 0 <= i <= n implies #[trigger] self.ids@.contains_key(
                point_key(self.points@[i]),
            ) && self.ids@[point_key(self.points@[i])] == i by {
                if i < n {
                    assert(old(self).ids@.contains_key(point_key(old(self).points@[i])));
                }
            }
            assert forall|i: int| 0 <= i <= n implies (#[trigger] l[i]).no_duplicates() by {
                if i < n {
                    assert(ol[i].no_duplicates());
                    if !ol[i].contains(n) {
                    } else {
                        let t = choose|t: int| 0 <= t < ol[i].len() && ol[i][t] == n;
                        assert(ol[i][t] < n);
                    }
                    lemma_push_contains(ol[i], n, n);
                } else {
                    assert(l[i] == list@);
                }
            }
            assert forall|i: int, t: int| 0 <= i <= n && 0 <= t < l[i].len() implies #[trigger] l[i][t] < n + 1 by {
                if i < n && t < ol[i].len() {
                    assert(ol[i][t] < n);
                } else if i == n {
                    assert(l[i] == list@);
                    assert(list@[t] < n);
                }
            }
            assert forall|i: int, j: usize| 0 <= i <= n && j <= n implies (l[i].contains(j) <==> i != j && adjacent(
                self.points@[i],
                self.points@[j as int],
            )) by {
                lemma_offset_of(p, self.points@[i]);
                lemma_offset_of(p, self.points@[j as int]);
                if i < n && j < n {
                    assert(ol[i].contains(j) <==> i != j && adjacent(
                        self.points@[i],
                        self.points@[j as int],
                    ));
                    if ol[i].push(n).contains(j) {
                        let t = choose|t: int| 0 <= t < ol[i].push(n).len() && ol[i].push(n)[t] == j;
                        assert(ol[i][t] == j);
                    }
                    if ol[i].contains(j) {
                        let t = choose|t: int| 0 <= t < ol[i].len() && ol[i][t] == j;
                        assert(ol[i].push(n)[t] == j);
                    }
                } else if i < n && j == n {
                    assert(!ol[i].contains(n as usize));
                    if offset_of(p, self.points@[i]) < 8 {
                        assert(ol[i].push(n)[ol[i].len() as int] == n);
                    }
                } else if i == n && j == n {
                    assert(!list@.contains(n as usize));
                }
            }
            assert forall|q: Point| #![auto] self.model().contains_key(q) == old(self).model().insert(
                p,
                expel_spec(Some(s)),
            ).contains_key(q) by {
                lemma_point_key(q, p);
            }
            assert forall|q: Point| #![auto] self.model().contains_key(q) implies self.model()[q] == old(self).model().insert(
                p,
                expel_spec(Some(s)),
            )[q] by {
                lemma_point_key(q, p);
            }
            assert(self.model() =~= old(self).model().insert(p, expel_spec(Some(s))));
            assert forall|kk: u64| #[trigger] self.ids@.contains_key(kk) implies self.ids@[kk] < n + 1
                && point_key(self.points@[self.ids@[kk] as int]) == kk by {
                if kk != key {
                    assert(old(self).ids@.contains_key(kk));
                }
            }
            assert(self.points@.len() == self.len());
            assert(forall|i: int|
                0 <= i < self.len() ==> #[trigger] self.ids@.contains_key(point_key(self.points@[i]))
                    && self.ids@[point_key(self.points@[i])] == i);
            assert(self.ids_ok());
            assert(self.graph_ok());
        }
    }

    /// Removes `p` if it is stored: unlinks it from its neighbors, moves the
    /// last cell into its id and renumbers that cell in its neighbors' lists.
    fn remove_point(&mut self, p: Point)
        requires
            old(self).wf(),
        ensures
            final(self).wf(),
            final(self).model() == old(self).model().remove(p),
    {
        let key = point_key_exec(p);
        let i = match self.ids.get(&key) {
            Some(i) => *i,
            None => {
                assert(self.model() =~= old(self).model().remove(p));
                return ;
            },
        };
        let total = self.states.len();
        let ghost n = self.len();
        let ghost ol = old(self).lists();
        proof {
            lemma_point_key(p, self.points@[i as int]);
        }
        // Phase 1: no list keeps `i`.
        let mut t: usize = 0;
        while t < self.nbors[i].len()
            invariant
                old(self).wf(),
                n == old(self).len(),
                n <= usize::MAX,
                ol == old(self).lists(),
                0 <= i < n,
                self.ids@ == old(self).ids@,
                self.points@ == old(self).points@,
                self.states@ == old(self).states@,
                self.nbors@.len() == n,
                self.lists()[i as int] == ol[i as int],
                t <= ol[i as int].len(),
                forall|a: int| 0 <= a < n ==> (#[trigger] self.lists()[a]).no_duplicates(),
                forall|a: int, b: usize|
                    0 <= a < n && a != i ==> (#[trigger] self.lists()[a].contains(b) <==> ol[a].contains(b)
                        && !(b == i && ol[i as int].subrange(0, t as int).contains(a as usize))),
            decreases ol[i as int].len() - t,
        {
            let j = self.nbors[i][t];
            proof {
                assert(ol[i as int].contains(j));
                assert(ol[i as int][t as int] < n);
                assert(j != i);
                assert(ol[i as int].subrange(0, t as int + 1) =~= ol[i as int].subrange(0, t as int).push(j));
                assert forall|b: usize| true implies (ol[i as int].subrange(0, t as int + 1).contains(b)
                    <==> ol[i as int].subrange(0, t as int).contains(b) || b == j) by {
                    lemma_push_contains(ol[i as int].subrange(0, t as int), j, b);
                }
            }
            let ghost before = self.lists();
            assert(self.lists()[j as int] == self.nbors@[j as int]@);
            assert(self.lists()[j as int].no_duplicates());
            remove_value(&mut self.nbors[j], i);
            proof {
                assert(self.lists() =~= before.update(j as int, self.lists()[j as int]));
                let li = ol[i as int];
                assert forall|a: int, b: usize|
                    0 <= a < n && a != i implies (#[trigger] self.lists()[a].contains(b) <==> ol[a].contains(b)
                        && !(b == i && li.subrange(0, t as int + 1).contains(a as usize))) by {
                    assert(li.subrange(0, t as int + 1) =~= li.subrange(0, t as int).push(j));
                    lemma_push_contains(li.subrange(0, t as int), j, a as usize);
                    assert(before[a].contains(b) <==> ol[a].contains(b) && !(b == i
                        && li.subrange(0, t as int).contains(a as usize)));
                    if a != j {
                        assert(self.lists()[a] == before[a]);
                    } else {
                        assert(before[a].contains(b) <==> ol[a].contains(b) && !(b == i
                            && li.subrange(0, t as int).contains(a as usize)));
                        assert(self.lists()[a].contains(b) <==> before[a].contains(b) && b != i);
                    }
                }
            }
            t += 1;
        }
        proof {
            assert(ol[i as int].subrange(0, t as int) =~= ol[i as int]);
        }
        // Phase 2: the last cell takes id `i`.
        let ghost mid = self.lists();
        let last = self.states.len() - 1;
        self.states.swap_remove(i);
        self.points.swap_remove(i);
        self.nbors.swap_remove(i);
        self.ids.remove(&key);
        proof {
            assert(self.lists() =~= mid.update(i as int, mid[last as int]).drop_last());
        }
        if i < last {
            let moved = self.points[i];
            let mkey = point_key_exec(moved);
            self.ids.insert(mkey, i);
            // Phase 3: the neighbors of the moved cell learn its new id.
            let mut t: usize = 0;
            while t < self.nbors[i].len()
                invariant
                    old(self).wf(),
                    n == old(self).len(),
                    n <= usize::MAX,
                    ol == old(self).lists(),
                    0 <= i < last,
                    last == n - 1,
                    self.nbors@.len() == last,
                    self.points@ == old(self).points@.update(i as int, old(self).points@[last as int]).drop_last(),
                    self.states@ == old(self).states@.update(i as int, old(self).states@[last as int]).drop_last(),
                    self.ids@ == old(self).ids@.remove(key).insert(point_key(old(self).points@[last as int]), i),
                    self.lists()[i as int] == mid[last as int],
                    t <= mid[last as int].len(),
                    forall|a: int| 0 <= a < n ==> (#[trigger] mid[a]).no_duplicates(),
                    forall|a: int, b: usize|
                        0 <= a < n && a != i ==> (#[trigger] mid[a].contains(b) <==> ol[a].contains(b)
                            && b != i),
                    forall|a: int| 0 <= a < last ==> (#[trigger] self.lists()[a]).no_duplicates(),
                    forall|a: int, b: usize|
                        0 <= a < last && a != i ==> (#[trigger] self.lists()[a].contains(b) <==> if mid[last as int].subrange(
                            0,
                            t as int,
                        ).contains(a as usize) {
                            (mid[a].contains(b) && b != last) || b == i
                        } else {
                            mid[a].contains(b)
                        }),
                decreases mid[last as int].len() - t,
            {
                let a = self.nbors[i][t];
                proof {
                    let ml = mid[last as int];
                    assert(ml.contains(a));
                    assert(ol[last as int].contains(a));
                    let w = choose|w: int| 0 <= w < ol[last as int].len() && ol[last as int][w] == a;
                    assert(ol[last as int][w] < n);
                    assert(a != i && a != last);
                    assert(ml.subrange(0, t as int + 1) =~= ml.subrange(0, t as int).push(a));
                    assert forall|b: usize| true implies (ml.subrange(0, t as int + 1).contains(b)
                        <==> ml.subrange(0, t as int).contains(b) || b == a) by {
                        lemma_push_contains(ml.subrange(0, t as int), a, b);
                    }
                    assert(ml.no_duplicates());
                    if ml.subrange(0, t as int).contains(a) {
                        let u = choose|u: int| 0 <= u < t && ml.subrange(0, t as int)[u] == a;
                        assert(ml[u] == ml[t as int]);
                    }
                    assert(ol[a as int].contains(last as usize));
                    assert(!ol[a as int].contains(a as usize));
                }
                let ghost before = self.lists();
                let ghost ml = mid[last as int];
                assert(self.lists()[a as int] == self.nbors@[a as int]@);
                assert(self.lists()[a as int].no_duplicates());
                assert(self.lists()[a as int].contains(last) <==> mid[a as int].contains(last));
                replace_value(&mut self.nbors[a], last, i);
                proof {
                    assert(self.lists() =~= before.update(a as int, self.lists()[a as int]));
                    assert forall|a2: int, b: usize|
                        0 <= a2 < last && a2 != i implies (#[trigger] self.lists()[a2].contains(b) <==> if ml.subrange(
                            0,
                            t as int + 1,
                        ).contains(a2 as usize) {
                            (mid[a2].contains(b) && b != last) || b == i
                        } else {
                            mid[a2].contains(b)
                        }) by {
                        assert(ml.subrange(0, t as int + 1).contains(a2 as usize)
                            <==> ml.subrange(0, t as int).contains(a2 as usize) || a2 == a);
                        if a2 != a {
                            assert(self.lists()[a2] == before[a2]);
                        }
                    }
                }
                t += 1;
            }
            proof {
                assert(mid[last as int].subrange(0, t as int) =~= mid[last as int]);
            }
        }
        proof {
            let l = self.lists();
            let m = last as int;
            let pts = self.points@;
            let opts = old(self).points@;
            assert(forall|a: int| 0 <= a < m ==> #[trigger] pts[a] == if a == i { opts[m] } else { opts[a] });
            assert forall|a: int, b: usize| 0 <= a < m && b < m implies (l[a].contains(b) <==> a != b
                && adjacent(pts[a], pts[b as int])) by {
                let sa = if a == i { m } else { a };
                let sb = if b == i { m } else { b as int };
                assert(ol[sa].contains(sb as usize) <==> sa != sb && adjacent(opts[sa], opts[sb]));
                lemma_offset_of(opts[sa], opts[sb]);
                if i < m && a != i && ol[m].contains(a as usize) {
                    assert(adjacent(opts[m], opts[a]));
                    assert(ol[a].contains(m as usize));
                }
                if i < m && a != i && ol[a].contains(m as usize) {
                    assert(ol[m].contains(a as usize));
                }
            }
            assert forall|a: int, u: int| 0 <= a < m && 0 <= u < l[a].len() implies #[trigger] l[a][u] < m by {
                let b = l[a][u];
                assert(l[a].contains(b));
                let sa = if a == i { m } else { a };
                assert(ol[sa].contains(b) || b == i);
                if ol[sa].contains(b) {
                    let w = choose|w: int| 0 <= w < ol[sa].len() && ol[sa][w] == b;
                    assert(ol[sa][w] < n);
                }
            }
            assert forall|a: int| 0 <= a < m implies #[trigger] self.ids@.contains_key(
                point_key(pts[a]),
            ) && self.ids@[point_key(pts[a])] == a by {
                let oids = old(self).ids@;
                old(self).lemma_id_of(a);
                old(self).lemma_id_of(m);
                assert(oids[key] == i);
                if a == i {
                    assert(pts[a] == opts[m]);
                    assert(self.ids@ == oids.remove(key).insert(point_key(opts[m]), i));
                } else {
                    assert(pts[a] == opts[a]);
                    assert(point_key(opts[a]) != key);
                    if i < m {
                        assert(self.ids@ == oids.remove(key).insert(point_key(opts[m]), i));
                        assert(point_key(opts[a]) != point_key(opts[m]));
                    } else {
                        assert(self.ids@ == oids.remove(key));
                    }
                }
            }
            assert forall|kk: u64| #[trigger] self.ids@.contains_key(kk) implies self.ids@[kk] < m
                && point_key(pts[self.ids@[kk] as int]) == kk by {
                assert(old(self).ids@.contains_key(kk));
                let x = old(self).ids@[kk] as int;
                if kk != point_key(opts[m]) {
                    assert(x != m);
                }
            }
            assert(pts.len() == self.len());
            assert(forall|a: int|
                0 <= a < self.len() ==> #[trigger] self.ids@.contains_key(point_key(pts[a]))
                    && self.ids@[point_key(pts[a])] == a);
            assert(self.ids_ok());
            assert(self.graph_ok());
            assert forall|q: Point| #![auto] self.model().contains_key(q) == old(self).model().remove(p).contains_key(q) by {
                lemma_point_key(q, p);
            }
            assert forall|q: Point| #![auto] self.model().contains_key(q) implies self.model()[q] == old(self).model()[q] by {
                lemma_point_key(q, p);
                lemma_point_key(q, opts[m]);
            }
            assert(self.model() =~= old(self).model().remove(p));
        }
    }

    /// The list of `j` counts, among `x < i`, exactly the `Alive` cells next to `j`.
    proof fn lemma_pushed_offsets(&self, j: usize, i: int)
        requires
            self.wf(),
            j < self.len(),
            0 <= i <= self.len(),
        ensures
            pushed(self.states@, self.lists(), j, i) == alive_offsets(
                self.states@,
                self.points@,
                self.points@[j as int],
                0,
                8,
                i,
            ),
        decreases i,
    {
        if i > 0 {
            self.lemma_pushed_offsets(j, i - 1);
            let x = i - 1;
            lemma_offset_of(self.points@[j as int], self.points@[x]);
            assert(self.lists()[x].contains(j) <==> x != j && adjacent(
                self.points@[x],
                self.points@[j as int],
            ));
            if x != j {
                self.lemma_id_of(x);
                self.lemma_id_of(j as int);
            } else {
                assert(!adjacent(self.points@[x], self.points@[x]));
            }
        }
    }

    /// Among `x < i`, at most the one id stored at offset `k` from `p` is counted.
    /// 1 when the point at king offset `k` from `p` is stored, `Alive`, with id below `i`.
    spec fn counted_at(&self, p: Point, k: int, i: int) -> nat {
        let q = Point { x: (p.x + king_dx(k)) as i32, y: (p.y + king_dy(k)) as i32 };
        if in_i32(p.x + king_dx(k)) && in_i32(p.y + king_dy(k)) && self.ids@.contains_key(
            point_key(q),
        ) && self.ids@[point_key(q)] < i && self.states@[self.ids@[point_key(q)] as int]
            == CellStateInternal::Alive {
            1
        } else {
            0
        }
    }

    proof fn lemma_offset_unique(&self, p: Point, k: int, i: int)
        requires
            self.wf(),
            0 <= k < 8,
            0 <= i <= self.len(),
        ensures
            alive_offsets(self.states@, self.points@, p, k, k + 1, i) == self.counted_at(p, k, i),
        decreases i,
    {
        if i > 0 {
            self.lemma_offset_unique(p, k, i - 1);
            let x = i - 1;
            let q = Point { x: (p.x + king_dx(k)) as i32, y: (p.y + king_dy(k)) as i32 };
            lemma_offset_of(p, self.points@[x]);
            self.lemma_id_of(x);
            if offset_of(p, self.points@[x]) == k {
                assert(self.points@[x] == q);
            }
            if in_i32(p.x + king_dx(k)) && in_i32(p.y + king_dy(k)) && self.ids@.contains_key(
                point_key(q),
            ) {
                let a = self.ids@[point_key(q)] as int;
                lemma_point_key(self.points@[a], q);
                lemma_point_key(self.points@[a], self.points@[x]);
            }
        }
    }

    proof fn lemma_first_offsets(&self, p: Point, k: int)
        requires
            self.wf(),
            0 <= k <= 8,
        ensures
            alive_offsets(self.states@, self.points@, p, 0, k, self.len()) == alive_first_offsets(
                self.model(),
                p,
                k,
            ),
        decreases k,
    {
        let n = self.len();
        if k == 0 {
            lemma_zero_offsets(self.states@, self.points@, p, n);
        } else {
            let k1 = k - 1;
            self.lemma_first_offsets(p, k1);
            lemma_alive_offsets_split(self.states@, self.points@, p, k1, n);
            self.lemma_offset_unique(p, k1, n);
            let q = Point { x: (p.x + king_dx(k1)) as i32, y: (p.y + king_dy(k1)) as i32 };
            if in_i32(p.x + king_dx(k1)) && in_i32(p.y + king_dy(k1)) && self.ids@.contains_key(
                point_key(q),
            ) {
                assert(self.ids@[point_key(q)] < n);
            }
        }
    }

    /// The neighbor lists count what `alive_neighbors` counts.
    proof fn lemma_count_is_alive_neighbors(&self, j: usize)
        requires
            self.wf(),
            j < self.len(),
        ensures
            pushed(self.states@, self.lists(), j, self.len()) == alive_neighbors(
                self.model(),
                self.points@[j as int],
            ),
    {
        let p = self.points@[j as int];
        let n = self.len();
        self.lemma_pushed_offsets(j, n);
        self.lemma_first_offsets(p, 8);
        reveal_with_fuel(alive_first_offsets, 9);
    }

    fn set(&mut self, p: Point, s: CellState)
        requires
            old(self).wf(),
        ensures
            final(self).wf(),
            final(self).model() == with_cell(old(self).model(), p, s),
    {
        match cell_state_admit(s) {
            Some(st) => {
                let key = point_key_exec(p);
                match self.ids.get(&key) {
                    Some(i) => {
                        let i = *i;
                        self.states.set(i, st);
                        proof {
                            assert(self.lists() =~= old(self).lists());
                            assert forall|q: Point| #![auto] self.model().contains_key(q) implies self.model()[q] == old(self).model().insert(p, s)[q] by {
                                lemma_point_key(q, p);
                            }
                            assert(self.model() =~= old(self).model().insert(p, s));
                        }
                    },
                    None => self.insert_new(p, st),
                }
            },
            None => self.remove_point(p),
        }
    }

    fn step(&mut self)
        requires
            old(self).wf(),
        ensures
            final(self).wf(),
            final(self).model() == stepped(old(self).model()),
    {
        let n = self.states.len();
        let ghost lists = self.lists();
        let mut adj: Vec<usize> = Vec::new();
        while adj.len() < n
            invariant
                adj@.len() <= n,
                forall|j: int| 0 <= j < adj@.len() ==> adj@[j] == 0,
            decreases n - adj@.len(),
        {
            adj.push(0);
        }
        let mut i: usize = 0;
        while i < n
            invariant
                self.wf(),
                self == old(self),
                lists == self.lists(),
                n == self.len(),
                i <= n,
                adj@.len() == n,
                forall|j: int| 0 <= j < n ==> #[trigger] adj@[j] == pushed(self.states@, lists, j as usize, i as int),
            decreases n - i,
        {
            if self.states[i] == CellStateInternal::Alive {
                let mut t: usize = 0;
                while t < self.nbors[i].len()
                    invariant
                        self.wf(),
                        self == old(self),
                        lists == self.lists(),
                        n == self.len(),
                        i < n,
                        t <= lists[i as int].len(),
                        adj@.len() == n,
                        self.states@[i as int] == CellStateInternal::Alive,
                        forall|j: int|
                            0 <= j < n ==> #[trigger] adj@[j] == pushed(self.states@, lists, j as usize, i as int)
                                + if lists[i as int].subrange(0, t as int).contains(j as usize) {
                                1nat
                            } else {
                                0nat
                            },
                    decreases lists[i as int].len() - t,
                {
                    let jj = self.nbors[i][t];
                    let ghost sub = lists[i as int].subrange(0, t as int);
                    proof {
                        assert(jj == lists[i as int][t as int]);
                        assert(jj < n);
                        assert(lists[i as int].subrange(0, t as int + 1) =~= sub.push(jj));
                        if sub.contains(jj) {
                            let u = choose|u: int| 0 <= u < sub.len() && sub[u] == jj;
                            assert(lists[i as int][u] == lists[i as int][t as int]);
                        }
                        lemma_pushed_bound(self.states@, lists, jj, i as int);
                        assert(adj@[jj as int] == pushed(self.states@, lists, jj, i as int));
                    }
                    adj[jj] = adj[jj] + 1;
                    proof {
                        assert forall|j: int| 0 <= j < n implies #[trigger] adj@[j] == pushed(self.states@, lists, j as usize, i as int)
                                + if lists[i as int].subrange(0, t as int + 1).contains(j as usize) {
                                1nat
                            } else {
                                0nat
                            } by {
                            lemma_push_contains(sub, jj, j as usize);
                        }
                    }
                    t += 1;
                }
                proof {
                    assert(lists[i as int].subrange(0, t as int) =~= lists[i as int]);
                }
            }
            i += 1;
        }
        let mut i: usize = 0;
        while i < n
            invariant
                old(self).wf(),
                n == old(self).len(),
                i <= n,
                adj@.len() == n,
                self.ids@ == old(self).ids@,
                self.points@ == old(self).points@,
                self.nbors@ == old(self).nbors@,
                self.states@.len() == n,
                forall|j: int| 0 <= j < n ==> #[trigger] adj@[j] == pushed(old(self).states@, lists, j as usize, n as int),
                lists == old(self).lists(),
                forall|j: int|
                    0 <= j < n ==> #[trigger] self.states@[j] == if j < i {
                        admitted(next_state(expel_spec(Some(old(self).states@[j])), adj@[j] as int))
                    } else {
                        old(self).states@[j]
                    },
            decreases n - i,
        {
            let next = match self.states[i] {
                CellStateInternal::Alive => CellStateInternal::Dead,
                CellStateInternal::Dead => CellStateInternal::Wire,
                CellStateInternal::Wire => {
                    if adj[i] == 1 || adj[i] == 2 {
                        CellStateInternal::Alive
                    } else {
                        CellStateInternal::Wire
                    }
                },
            };
            self.states.set(i, next);
            i += 1;
        }
        proof {
            assert(self.lists() =~= old(self).lists());
            assert forall|q: Point| #![auto] self.model().contains_key(q) implies self.model()[q] == stepped(old(self).model())[q] by {
                let j = self.ids@[point_key(q)];
                assert(point_key(self.points@[j as int]) == point_key(q));
                lemma_point_key(self.points@[j as int], q);
                old(self).lemma_count_is_alive_neighbors(j);
            }
            assert(self.model() =~= stepped(old(self).model()));
        }
    }
}


/// The `h` rows of `w` cells of the rectangle at `(x, y)`, row by row.
pub open spec fn slice_cells(m: Map<Point, CellState>, x: int, y: int, w: int, h: int) -> Seq<
    Seq<CellState>,
> {
    Seq::new(nonneg(h), |r: int| Seq::new(nonneg(w), |c: int| cell_at(m, x + c, y + r)))
}

/// The cells along `perimeter_points(x, y, w, h)`.
pub open spec fn perimeter_cells(m: Map<Point, CellState>, x: int, y: int, w: int, h: int) -> Seq<
    CellState,
> {
    perimeter_points(x, y, w, h).map_values(|c: (int, int)| cell_at(m, c.0, c.1))
}

/// The rows of a tile matrix, as sequences.
pub open spec fn rows_of(t: Vec<Vec<CellState>>) -> Seq<Seq<CellState>> {
    t@.map_values(|row: Vec<CellState>| row@)
}

/// The cells of a perimeter walk of the rectangle `(x, y, w, h)`: down the
/// left column, right along the bottom row, up the right column, then left
/// along the top row, each corner once.
pub open spec fn perimeter_points(x: int, y: int, w: int, h: int) -> Seq<(int, int)> {
    let left = Seq::new(nonneg(h), |k: int| (x, y + k));
    let bottom = Seq::new(nonneg(w - 1), |k: int| (x + 1 + k, y + h - 1));
    let right = Seq::new(nonneg(h - 1), |k: int| (x + w - 1, y + h - 2 - k));
    let top = Seq::new(nonneg(w - 2), |k: int| (x + w - 2 - k, y));
    left + bottom + right + top
}

pub open spec fn nonneg(v: int) -> nat {
    if v < 0 {
        0
    } else {
        v as nat
    }
}

/// A perimeter of a rectangle at least two cells wide and high has
/// `2w + 2h - 4` cells.
pub proof fn lemma_perimeter_len(x: int, y: int, w: int, h: int)
    requires
        w >= 2,
        h >= 2,
    ensures
        perimeter_points(x, y, w, h).len() == 2 * w + 2 * h - 4,
{
}

/// Setting a cell to `Empty` and reading it back gives `Empty`; setting it to
/// any state and reading it back gives that state, and no other cell changes.
pub proof fn lemma_set_then_get(m: Map<Point, CellState>, p: Point, s: CellState, q: Point)
    ensures
        cell_of(with_cell(m, p, CellState::Empty), p) == CellState::Empty,
        cell_of(with_cell(m, p, s), p) == s,
        q != p ==> cell_of(with_cell(m, p, s), q) == cell_of(m, q),
{
}

/// The Wireworld rule, cell by cell: a head becomes a tail, a tail becomes
/// wire, wire becomes a head exactly when one or two of its neighbors were
/// heads, and no cell appears or vanishes.
pub proof fn lemma_step_rule(m: Map<Point, CellState>, p: Point)
    ensures
        stepped(m).contains_key(p) == m.contains_key(p),
        m.contains_key(p) && m[p] == CellState::Alive ==> stepped(m)[p] == CellState::Dead,
        m.contains_key(p) && m[p] == CellState::Dead ==> stepped(m)[p] == CellState::Wire,
        m.contains_key(p) && m[p] == CellState::Wire ==> (stepped(m)[p] == CellState::Alive <==> 1
            <= alive_neighbors(m, p) <= 2),
        m.contains_key(p) && m[p] == CellState::Wire ==> (stepped(m)[p] == CellState::Alive
            || stepped(m)[p] == CellState::Wire),
{
}

/// One requested change of a cell.
#[derive(Clone, Copy, Debug, PartialEq, Eq, Structural)]
pub struct CellModification {
    pub x: i32,
    pub y: i32,
    pub cell: CellState,
}

/// The map of stored cells after applying `edits` in order.
pub open spec fn with_edits(m: Map<Point, CellState>, edits: Seq<CellModification>) -> Map<
    Point,
    CellState,
>
    decreases edits.len(),
{
    if edits.len() == 0 {
        m
    } else {
        let e = edits.last();
        with_cell(with_edits(m, edits.drop_last()), Point { x: e.x, y: e.y }, e.cell)
    }
}

/// The authoritative world: stored cells with their neighbor graph.
pub struct World {
    grid: Grid,
}

impl View for World {
    type V = Map<Point, CellState>;

    closed spec fn view(&self) -> Map<Point, CellState> {
        self.grid.model()
    }
}

impl World {
    #[verifier::type_invariant]
    spec fn inv(&self) -> bool {
        self.grid.wf()
    }

    /// The number of stored cells; their ids are `0..size()`.
    pub closed spec fn size(&self) -> nat {
        self.grid.len() as nat
    }

    /// The point of the stored cell with id `i`.
    pub closed spec fn point_of(&self, i: int) -> Point {
        self.grid.points@[i]
    }

    /// The ids in the neighbor list of the stored cell with id `i`.
    pub closed spec fn neighbor_ids(&self, i: int) -> Seq<usize> {
        self.grid.lists()[i]
    }

    /// The neighbor lists are symmetric, hold only king-neighbors, hold each
    /// at most once and never the cell itself; the ids name exactly the cells
    /// that read as non-empty.
    pub open spec fn sound(&self) -> bool {
        &&& forall|i: int, j: usize|
            0 <= i < self.size() && j < self.size() ==> (#[trigger] self.neighbor_ids(i).contains(
                j,
            ) <==> self.neighbor_ids(j as int).contains(i as usize))
        &&& forall|i: int, j: usize|
            0 <= i < self.size() && j < self.size() && #[trigger] self.neighbor_ids(i).contains(j)
                ==> chebyshev(self.point_of(i), self.point_of(j as int)) == 1
        &&& forall|i: int|
            0 <= i < self.size() ==> (#[trigger] self.neighbor_ids(i)).no_duplicates()
                && !self.neighbor_ids(i).contains(i as usize)
        &&& forall|p: Point|
            (exists|i: int| 0 <= i < self.size() && #[trigger] self.point_of(i) == p) <==> cell_of(
                self@,
                p,
            ) != CellState::Empty
    }

    proof fn lemma_sound(&self)
        requires
            self.grid.wf(),
        ensures
            self.sound(),
    {
        let g = &self.grid;
        let n = g.len();
        assert forall|i: int, j: usize| 0 <= i < n && j < n implies (#[trigger] g.lists()[i].contains(j)
            <==> g.lists()[j as int].contains(i as usize)) by {
            lemma_offset_of(g.points@[i], g.points@[j as int]);
        }
        assert forall|i: int| 0 <= i < n implies !g.lists()[i].contains(i as usize) by {
            assert(!adjacent(g.points@[i], g.points@[i]));
        }
        assert forall|p: Point|
            (exists|i: int| 0 <= i < self.size() && #[trigger] self.point_of(i) == p) <==> cell_of(
                self@,
                p,
            ) != CellState::Empty by {
            if exists|i: int| 0 <= i < self.size() && #[trigger] self.point_of(i) == p {
                let i = choose|i: int| 0 <= i < self.size() && #[trigger] self.point_of(i) == p;
                g.lemma_id_of(i);
            }
            if cell_of(self@, p) != CellState::Empty {
                let i = g.ids@[point_key(p)] as int;
                lemma_point_key(g.points@[i], p);
                assert(self.point_of(i) == p);
            }
        }
        assert forall|i: int, j: usize|
            0 <= i < self.size() && j < self.size() && #[trigger] self.neighbor_ids(i).contains(j)
                implies chebyshev(self.point_of(i), self.point_of(j as int)) == 1 by {
            assert(g.lists()[i].contains(j));
        }
        assert forall|i: int|
            0 <= i < self.size() implies (#[trigger] self.neighbor_ids(i)).no_duplicates()
                && !self.neighbor_ids(i).contains(i as usize) by {
            assert(g.lists()[i].no_duplicates());
            assert(!g.lists()[i].contains(i as usize));
        }
    }

    pub fn new() -> (w: World)
        ensures
            w@ == Map::<Point, CellState>::empty(),
            w.sound(),
    {
        let w = World { grid: Grid::new() };
        proof {
            w.lemma_sound();
        }
        w
    }

    /// The state of the cell at `p`.
    pub fn get_tile(&self, p: Point) -> (r: CellState)
        ensures
            r == cell_of(self@, p),
    {
        proof {
            use_type_invariant(self);
        }
        self.grid.get(p)
    }

    /// Sets the cell at `pos` to `s`; `Empty` removes it.
    pub fn set_tile(&mut self, pos: Point, s: CellState)
        ensures
            final(self)@ == with_cell(old(self)@, pos, s),
            final(self).sound(),
    {
        proof {
            use_type_invariant(&*self);
        }
        let mut g = Grid::new();
        std::mem::swap(&mut g, &mut self.grid);
        g.set(pos, s);
        self.grid = g;
        proof {
            self.lemma_sound();
        }
    }

    /// Advances every stored cell one Wireworld tick.
    pub fn step(&mut self)
        ensures
            final(self)@ == stepped(old(self)@),
            final(self).sound(),
    {
        proof {
            use_type_invariant(&*self);
        }
        let mut g = Grid::new();
        std::mem::swap(&mut g, &mut self.grid);
        g.step();
        self.grid = g;
        proof {
            self.lemma_sound();
        }
    }

    /// The cell at integer coordinates; outside the `i32` lattice it is `Empty`.
    fn tile_at(&self, x: i64, y: i64) -> (r: CellState)
        ensures
            r == cell_at(self@, x as int, y as int),
    {
        if i32::MIN as i64 <= x && x <= i32::MAX as i64 && i32::MIN as i64 <= y && y
            <= i32::MAX as i64 {
            self.get_tile(Point { x: x as i32, y: y as i32 })
        } else {
            CellState::Empty
        }
    }

    /// `h` rows of `w` cells, row `r` column `c` being the cell at `(x + c, y + r)`;
    /// a negative width or height reads as zero.
    pub fn copy_slice(&self, x: i32, y: i32, w: i32, h: i32) -> (r: Vec<Vec<CellState>>)
        ensures
            r@.len() == nonneg(h as int),
            forall|row: int|
                0 <= row < r@.len() ==> (#[trigger] r@[row])@.len() == nonneg(w as int),
            forall|row: int, col: int|
                0 <= row < r@.len() && 0 <= col < nonneg(w as int) ==> (#[trigger] r@[row]@[col])
                    == cell_at(self@, x + col, y + row),
            rows_of(r) == slice_cells(self@, x as int, y as int, w as int, h as int),
    {
        let mut ret: Vec<Vec<CellState>> = Vec::new();
        let mut j: i64 = 0;
        while j < h as i64
            invariant
                0 <= j,
                j <= nonneg(h as int),
                ret@.len() == j,
                forall|row: int| 0 <= row < ret@.len() ==> (#[trigger] ret@[row])@.len() == nonneg(w as int),
                forall|row: int, col: int|
                    0 <= row < ret@.len() && 0 <= col < nonneg(w as int) ==> (#[trigger] ret@[row]@[col])
                        == cell_at(self@, x + col, y + row),
            decreases h - j,
        {
            let mut row: Vec<CellState> = Vec::new();
            let mut i: i64 = 0;
            while i < w as i64
                invariant
                    0 <= j < h,
                    0 <= i,
                    i <= nonneg(w as int),
                    row@.len() == i,
                    forall|col: int| 0 <= col < row@.len() ==> #[trigger] row@[col] == cell_at(self@, x + col, y + j),
                decreases w - i,
            {
                row.push(self.tile_at(x as i64 + i, y as i64 + j));
                i += 1;
            }
            ret.push(row);
            j += 1;
        }
        proof {
            let sc = slice_cells(self@, x as int, y as int, w as int, h as int);
            assert forall|row: int| 0 <= row < ret@.len() implies rows_of(ret)[row] == sc[row] by {
                assert(rows_of(ret)[row] =~= sc[row]);
            }
            assert(rows_of(ret) =~= sc);
        }
        ret
    }

    /// The cells of `perimeter_points(x, y, w, h)`, in that order.
    pub fn copy_perimeter(&self, x: i32, y: i32, w: i32, h: i32) -> (r: Vec<CellState>)
        ensures
            r@ == perimeter_cells(self@, x as int, y as int, w as int, h as int),
    {
        let ghost pts = perimeter_points(x as int, y as int, w as int, h as int);
        let (x, y, w, h) = (x as i64, y as i64, w as i64, h as i64);
        let mut ret: Vec<CellState> = Vec::new();
        let mut k: i64 = 0;
        while k < h
            invariant
                pts == perimeter_points(x as int, y as int, w as int, h as int),
                i32::MIN <= x <= i32::MAX && i32::MIN <= y <= i32::MAX,
                i32::MIN <= w <= i32::MAX && i32::MIN <= h <= i32::MAX,
                0 <= k <= nonneg(h as int),
                ret@.len() == k,
                forall|t: int| 0 <= t < ret@.len() ==> #[trigger] ret@[t] == cell_at(self@, pts[t].0, pts[t].1),
            decreases h - k,
        {
            ret.push(self.tile_at(x, y + k));
            k += 1;
        }
        let base1: i64 = k;
        let mut k: i64 = 0;
        while k < w - 1
            invariant
                pts == perimeter_points(x as int, y as int, w as int, h as int),
                i32::MIN <= x <= i32::MAX && i32::MIN <= y <= i32::MAX,
                i32::MIN <= w <= i32::MAX && i32::MIN <= h <= i32::MAX,
                base1 == nonneg(h as int),
                0 <= k <= nonneg(w - 1),
                ret@.len() == base1 + k,
                forall|t: int| 0 <= t < ret@.len() ==> #[trigger] ret@[t] == cell_at(self@, pts[t].0, pts[t].1),
            decreases w - 1 - k,
        {
            ret.push(self.tile_at(x + 1 + k, y + h - 1));
            k += 1;
        }
        let base2: i64 = base1 + k;
        let mut k: i64 = 0;
        while k < h - 1
            invariant
                pts == perimeter_points(x as int, y as int, w as int, h as int),
                i32::MIN <= x <= i32::MAX && i32::MIN <= y <= i32::MAX,
                i32::MIN <= w <= i32::MAX && i32::MIN <= h <= i32::MAX,
                base2 == nonneg(h as int) + nonneg(w - 1),
                0 <= k <= nonneg(h - 1),
                ret@.len() == base2 + k,
                forall|t: int| 0 <= t < ret@.len() ==> #[trigger] ret@[t] == cell_at(self@, pts[t].0, pts[t].1),
            decreases h - 1 - k,
        {
            ret.push(self.tile_at(x + w - 1, y + h - 2 - k));
            k += 1;
        }
        let base3: i64 = base2 + k;
        let mut k: i64 = 0;
        while k < w - 2
            invariant
                pts == perimeter_points(x as int, y as int, w as int, h as int),
                i32::MIN <= x <= i32::MAX && i32::MIN <= y <= i32::MAX,
                i32::MIN <= w <= i32::MAX && i32::MIN <= h <= i32::MAX,
                base3 == nonneg(h as int) + nonneg(w - 1) + nonneg(h - 1),
                0 <= k <= nonneg(w - 2),
                ret@.len() == base3 + k,
                forall|t: int| 0 <= t < ret@.len() ==> #[trigger] ret@[t] == cell_at(self@, pts[t].0, pts[t].1),
            decreases w - 2 - k,
        {
            ret.push(self.tile_at(x + w - 2 - k, y));
            k += 1;
        }
        assert(ret@ =~= pts.map_values(|c: (int, int)| cell_at(self@, c.0, c.1)));
        ret
    }

    /// A copy of this world.
    pub fn snapshot(&self) -> (r: World)
        ensures
            r@ == self@,
            r.sound(),
    {
        proof {
            use_type_invariant(self);
        }
        let r = World { grid: self.grid.duplicate() };
        proof {
            r.lemma_sound();
        }
        r
    }

    /// Applies `edits` in order.
    pub fn apply_edits(&mut self, edits: &Vec<CellModification>)
        ensures
            final(self)@ == with_edits(old(self)@, edits@),
            final(self).sound(),
    {
        let mut i: usize = 0;
        proof {
            use_type_invariant(&*self);
            self.lemma_sound();
            assert(edits@.subrange(0, 0) =~= Seq::<CellModification>::empty());
        }
        while i < edits.len()
            invariant
                i <= edits@.len(),
                self@ == with_edits(old(self)@, edits@.subrange(0, i as int)),
                self.sound(),
            decreases edits@.len() - i,
        {
            let e = edits[i];
            self.set_tile(Point { x: e.x, y: e.y }, e.cell);
            proof {
                assert(edits@.subrange(0, i as int + 1).drop_last() =~= edits@.subrange(0, i as int));
            }
            i += 1;
        }
        proof {
            assert(edits@.subrange(0, i as int) =~= edits@);
        }
    }

    /// One tick of the engine: applies the pending `edits`, returns the
    /// resulting version for publication, then steps.
    pub fn tick(&mut self, edits: &Vec<CellModification>) -> (published: World)
        ensures
            published@ == with_edits(old(self)@, edits@),
            final(self)@ == stepped(published@),
            final(self).sound(),
    {
        self.apply_edits(edits);
        let published = self.snapshot();
        self.step();
        published
    }
}

/// The four-cell world of one electron: a head above, a tail to the left and
/// two wires, each next to the head.
pub fn sample_world() -> (w: World)
    ensures
        w@ == map![
            Point { x: 1, y: 0 } => CellState::Alive,
            Point { x: 0, y: 1 } => CellState::Dead,
            Point { x: 1, y: 2 } => CellState::Wire,
            Point { x: 2, y: 1 } => CellState::Wire,
        ],
{
    let mut world = World::new();
    world.set_tile(Point { x: 1, y: 0 }, CellState::Alive);
    world.set_tile(Point { x: 0, y: 1 }, CellState::Dead);
    world.set_tile(Point { x: 1, y: 2 }, CellState::Wire);
    world.set_tile(Point { x: 2, y: 1 }, CellState::Wire);
    assert(world@ =~= map![
        Point { x: 1, y: 0 } => CellState::Alive,
        Point { x: 0, y: 1 } => CellState::Dead,
        Point { x: 1, y: 2 } => CellState::Wire,
        Point { x: 2, y: 1 } => CellState::Wire,
    ]);
    world
}

} // verus!
