use vstd::prelude::*;
use crate::chinakers::{
    Cell, Field, Move, is_legal, after_move, is_step, solved, heuristic, legal_moves, lemma_moves_of,
    pieces, piece_count, lemma_step_removes_one,
};

verus! {

/// One record of the search: a board, its costs, and the node it was reached from.
#[derive(Clone, Copy)]
pub struct AStarNode {
    /// Position in the arena, assigned in creation order.
    pub id: usize,
    /// The node this one was expanded from; the root names itself.
    pub parent_id: usize,
    pub field: Field,
    /// Moves from the root.
    pub g: usize,
    /// Heuristic estimate of the moves still needed.
    pub h: i32,
    /// `g + h`, the node's priority.
    pub f: i128,
}

/// What the open set keeps of a node: its priority and where it lies in the arena.
#[derive(Clone, Copy, PartialEq, Eq, Structural, Debug)]
pub struct OpenEntry {
    pub f: i128,
    pub id: usize,
}

/// The nodes waiting for expansion, taken out lowest `f` first.
///
/// Ties are left open: among entries of equal `f`, which one comes out is not
/// specified, and callers must not rely on `g`, `h` or insertion order deciding
/// it. This is a deliberately weak tie-break.
pub struct OpenSet {
    entries: Vec<OpenEntry>,
}

impl View for OpenSet {
    type V = Seq<OpenEntry>;

    closed spec fn view(&self) -> Seq<OpenEntry> {
        self.entries@
    }
}

impl OpenSet {
    pub fn new() -> (r: OpenSet)
        ensures
            r@ == Seq::<OpenEntry>::empty(),
    {
        OpenSet { entries: Vec::new() }
    }

    pub fn len(&self) -> (r: usize)
        ensures
            r == self@.len(),
    {
        self.entries.len()
    }

    pub fn insert(&mut self, e: OpenEntry)
        ensures
            final(self)@ == old(self)@.push(e),
    {
        self.entries.push(e);
    }

    /// Removes and returns an entry of least `f`, or `None` when the set is empty.
    pub fn pop_min(&mut self) -> (r: Option<OpenEntry>)
        ensures
            r is None <==> old(self)@.len() == 0,
            r is None ==> final(self)@ == old(self)@,
            r matches Some(e) ==> exists|i: int|
                0 <= i < old(self)@.len() && #[trigger] old(self)@[i] == e && final(self)@ == old(
                    self,
                )@.remove(i),
            r matches Some(e) ==> forall|j: int|
                0 <= j < old(self)@.len() ==> e.f <= #[trigger] old(self)@[j].f,
    {
        let n = self.entries.len();
        if n == 0 {
            return None;
        }
        let mut best: usize = 0;
        let mut i: usize = 1;
        while i < n
            invariant
                n == self.entries@.len(),
                1 <= i <= n,
                best < n,
                forall|j: int| 0 <= j < i ==> self.entries@[best as int].f <= #[trigger] self.entries@[j].f,
            decreases n - i,
        {
            if self.entries[i].f < self.entries[best].f {
                best = i;
            }
            i += 1;
        }
        let ghost before = self.entries@;
        assert(before == old(self)@);
        let e = self.entries.remove(best);
        assert(before[best as int] == e && self.entries@ == before.remove(best as int));
        Some(e)
    }
}

/// Node `i` of the arena agrees with the nodes created before it.
pub open spec fn node_ok(nodes: Seq<AStarNode>, i: int) -> bool {
    let n = nodes[i];
    &&& n.id == i
    &&& n.h == heuristic(n.field@)
    &&& n.f == n.g + n.h
    &&& n.g <= i
    &&& if i == 0 {
        n.parent_id == 0 && n.g == 0
    } else {
        &&& n.parent_id < i
        &&& n.g == nodes[n.parent_id as int].g + 1
        &&& !solved(nodes[n.parent_id as int].field@)
        &&& is_step(nodes[n.parent_id as int].field@, n.field@)
    }
}

/// The arena holds a root and only nodes that agree with their parents.
pub open spec fn arena_ok(nodes: Seq<AStarNode>) -> bool {
    &&& nodes.len() >= 1
    &&& forall|i: int| 0 <= i < nodes.len() ==> #[trigger] node_ok(nodes, i)
}

/// Each entry of the open set names a node of the arena and carries its `f`.
pub open spec fn open_ok(nodes: Seq<AStarNode>, open: Seq<OpenEntry>) -> bool {
    forall|k: int|
        0 <= k < open.len() ==> (#[trigger] open[k]).id < nodes.len() && open[k].f == nodes[open[k].id as int].f
}

/// `states` runs from `start`, one legal jump at a time, to a solved board.
pub open spec fn is_solution(start: Seq<Cell>, states: Seq<Field>) -> bool {
    &&& states.len() >= 1
    &&& states[0]@ == start
    &&& solved(states.last()@)
    &&& forall|k: int| 0 <= k < states.len() - 1 ==> is_step(#[trigger] states[k]@, states[k + 1]@)
}

/// `after` is `before` followed by one child of `p` for each jump of `moves`, in order.
pub open spec fn children_appended(
    before: Seq<AStarNode>,
    after: Seq<AStarNode>,
    p: AStarNode,
    moves: Seq<Move>,
) -> bool {
    &&& after.len() == before.len() + moves.len()
    &&& after.take(before.len() as int) == before
    &&& forall|j: int|
        0 <= j < moves.len() ==> {
            let c = #[trigger] after[before.len() + j];
            c.parent_id == p.id && c.g == p.g + 1 && c.field@ == after_move(p.field@, moves[j])
        }
}

/// The open-set entries of the `n` nodes of `nodes` from index `from` on.
pub open spec fn entries_from(nodes: Seq<AStarNode>, from: int, n: int) -> Seq<OpenEntry> {
    Seq::new(n as nat, |j: int| OpenEntry { f: nodes[from + j].f, id: (from + j) as usize })
}

/// One step that popped entry `i` of the open set of `before`: a solved board
/// ends the search with its path; any other board is expanded.
pub open spec fn popped_step(
    before: AStar,
    after: AStar,
    i: int,
    r: Option<Result<AStarSolution, ()>>,
) -> bool {
    let e = before.frontier()[i];
    let p = before.arena()[e.id as int];
    let moves = legal_moves(p.field@);
    &&& 0 <= i < before.frontier().len()
    &&& forall|j: int| 0 <= j < before.frontier().len() ==> e.f <= #[trigger] before.frontier()[j].f
    &&& if solved(p.field@) {
        &&& match r {
            Some(Ok(sol)) => is_solution(before.arena()[0].field@, sol.states@)
                && stops_at_first_goal(sol.states@) && sol.states@.last() == p.field,
            _ => false,
        }
        &&& after.arena() == before.arena()
        &&& after.frontier() == before.frontier().remove(i)
    } else {
        &&& r is None
        &&& children_appended(before.arena(), after.arena(), p, moves)
        &&& after.frontier() == before.frontier().remove(i) + entries_from(
            after.arena(),
            before.arena().len() as int,
            moves.len() as int,
        )
    }
}

/// No board but the last of `states` is solved: the path stops at its first goal.
pub open spec fn stops_at_first_goal(states: Seq<Field>) -> bool {
    forall|k: int| 0 <= k < states.len() - 1 ==> !solved(#[trigger] states[k]@)
}

proof fn lemma_path_count(states: Seq<Field>, n: int)
    requires
        1 <= n <= states.len(),
        forall|k: int| 0 <= k < states.len() - 1 ==> is_step(#[trigger] states[k]@, states[k + 1]@),
    ensures
        piece_count(states[n - 1]@) == piece_count(states[0]@) - (n - 1),
    decreases n,
{
    if n > 1 {
        lemma_path_count(states, n - 1);
        states[n - 2].lemma_len();
        lemma_step_removes_one(states[n - 2]@, states[n - 1]@);
    }
}

/// A path that stops at its first solved board is a shortest solution: no
/// solution from the same board takes fewer jumps.
pub proof fn lemma_solution_is_shortest(sol: Seq<Field>, other: Seq<Field>)
    requires
        is_solution(sol[0]@, sol),
        stops_at_first_goal(sol),
        is_solution(sol[0]@, other),
    ensures
        sol.len() <= other.len(),
{
    lemma_path_count(sol, sol.len() as int);
    lemma_path_count(other, other.len() as int);
    if sol.len() > 1 {
        lemma_path_count(sol, sol.len() - 1);
        assert(!solved(sol[sol.len() - 2]@));
    }
}

/// Repeated boards are not merged: when an expansion reaches a board that a
/// node `q` of the arena already holds, the arena gains a second, distinct node
/// with that board, and that node waits in the open set for its own expansion.
pub proof fn lemma_repeated_board_kept(before: AStar, after: AStar, i: int, q: int, j: int)
    requires
        popped_step(before, after, i, None),
        0 <= q < before.arena().len(),
        0 <= j < legal_moves(before.arena()[before.frontier()[i].id as int].field@).len(),
        before.arena()[q].field@ == after_move(
            before.arena()[before.frontier()[i].id as int].field@,
            legal_moves(before.arena()[before.frontier()[i].id as int].field@)[j],
        ),
    ensures
        after.arena()[q] == before.arena()[q],
        after.arena()[before.arena().len() + j].field@ == before.arena()[q].field@,
        q != before.arena().len() + j,
        after.frontier().contains(
            OpenEntry {
                f: after.arena()[before.arena().len() + j].f,
                id: (before.arena().len() + j) as usize,
            },
        ),
{
    let p = before.arena()[before.frontier()[i].id as int];
    let moves = legal_moves(p.field@);
    if solved(p.field@) {
    } else {
        let n = before.arena().len() as int;
        assert(after.arena().take(n)[q] == after.arena()[q]);
        let popped = before.frontier().remove(i);
        let added = entries_from(after.arena(), n, moves.len() as int);
        assert(after.frontier()[popped.len() + j] == added[j]);
    }
}

/// The boards along the path from the root to a solved board, root first.
pub struct AStarSolution {
    pub states: Vec<Field>,
}

/// The search: an append-only arena of every node created and the open set of
/// nodes still to expand. There is no detection of repeated boards: a board
/// reached along two paths is held, and expanded, twice.
pub struct AStar {
    nodes: Vec<AStarNode>,
    open: OpenSet,
}

impl AStar {
    /// Every node created so far, by id.
    pub closed spec fn arena(&self) -> Seq<AStarNode> {
        self.nodes@
    }

    /// The entries waiting for expansion.
    pub closed spec fn frontier(&self) -> Seq<OpenEntry> {
        self.open@
    }

    pub open spec fn wf(&self) -> bool {
        arena_ok(self.arena()) && open_ok(self.arena(), self.frontier())
    }

    /// Starts a search from `start`: the root node, with `g = 0`, is the only
    /// node of the arena and of the open set.
    pub fn new(start: &Field) -> (r: AStar)
        ensures
            r.wf(),
            r.arena().len() == 1,
            r.arena()[0].field == *start,
            r.arena()[0].id == 0,
            r.arena()[0].parent_id == 0,
            r.arena()[0].g == 0,
            r.arena()[0].h == heuristic(start@),
            r.frontier() == seq![OpenEntry { f: r.arena()[0].f, id: 0 }],
    {
        let h = start.eval_heuristic();
        let node = AStarNode { id: 0, parent_id: 0, field: *start, g: 0, h, f: h as i128 };
        let mut nodes: Vec<AStarNode> = Vec::new();
        nodes.push(node);
        let mut open = OpenSet::new();
        open.insert(OpenEntry { f: node.f, id: 0 });
        let r = AStar { nodes, open };
        assert(node_ok(r.arena(), 0));
        r
    }

    /// The node with id `id`, if one was created.
    pub fn get(&self, id: usize) -> (r: Option<AStarNode>)
        ensures
            id < self.arena().len() ==> r == Some(self.arena()[id as int]),
            id >= self.arena().len() ==> r is None,
    {
        if id < self.nodes.len() {
            Some(self.nodes[id])
        } else {
            None
        }
    }

    /// One step of the search. With the open set empty the search has failed:
    /// `Some(Err(()))`, nothing changed. Otherwise the entry of least `f` is
    /// taken out; if its board is solved the result is the path of boards from
    /// the root to it; if not, one child per legal jump joins the arena and the
    /// open set, and the result is `None`.
    pub fn step(&mut self) -> (r: Option<Result<AStarSolution, ()>>)
        requires
            old(self).wf(),
        ensures
            final(self).wf(),
            final(self).arena().len() >= old(self).arena().len(),
            final(self).arena().take(old(self).arena().len() as int) == old(self).arena(),
            old(self).frontier().len() == 0 <==> r matches Some(Err(_)),
            old(self).frontier().len() == 0 ==> final(self).arena() == old(self).arena()
                && final(self).frontier() == old(self).frontier(),
            old(self).frontier().len() > 0 ==> exists|i: int|
                popped_step(*old(self), *final(self), i, r),
    {
        let ghost before = *self;
        let e = match self.open.pop_min() {
            Some(e) => e,
            None => {
                assert(self.arena().take(self.arena().len() as int) =~= self.arena());
                return Some(Err(()));
            },
        };
        let ghost k = choose|k: int|
            0 <= k < before.frontier().len() && #[trigger] before.frontier()[k] == e
                && self.frontier() == before.frontier().remove(k);
        assert(self.wf()) by {
            assert forall|q: int| 0 <= q < self.frontier().len() implies (#[trigger] self.frontier()[q]).id
                < self.arena().len() && self.frontier()[q].f == self.arena()[self.frontier()[q].id as int].f by {
                if q < k {
                    assert(self.frontier()[q] == before.frontier()[q]);
                } else {
                    assert(self.frontier()[q] == before.frontier()[q + 1]);
                }
            }
        }
        let cur_id = e.id;
        let current = self.nodes[cur_id];
        if current.field.is_solved() {
            let states = self.reconstruct(cur_id);
            assert(self.arena().take(self.arena().len() as int) =~= self.arena());
            let r = Some(Ok(AStarSolution { states }));
            assert(popped_step(before, *self, k, r));
            return r;
        }
        let moves = current.field.available_moves();
        proof {
            lemma_moves_of(current.field@, pieces(current.field@));
            assert(node_ok(self.arena(), cur_id as int));
        }
        let base_len = self.nodes.len();
        let ghost base = base_len as int;
        let ghost after_pop = self.frontier();
        assert(self.arena().take(base) =~= before.arena());
        assert(entries_from(self.arena(), base, 0) =~= Seq::<OpenEntry>::empty());
        assert(self.frontier() =~= after_pop + entries_from(self.arena(), base, 0));
        let mut i: usize = 0;
        while i < moves.len()
            invariant
                self.wf(),
                i <= moves@.len(),
                moves@ == legal_moves(current.field@),
                forall|j: int| 0 <= j < moves@.len() ==> is_legal(current.field@, #[trigger] moves@[j]),
                cur_id < base_len,
                base_len == base,
                current == before.arena()[cur_id as int],
                current.id == cur_id,
                !solved(current.field@),
                current.g <= cur_id,
                base == before.arena().len(),
                children_appended(before.arena(), self.arena(), current, moves@.take(i as int)),
                self.frontier() == after_pop + entries_from(self.arena(), base as int, i as int),
            decreases moves.len() - i,
        {
            let m = moves[i];
            if current.field.is_valid_move(m) {
                let mut field = current.field;
                let g = current.g + 1;
                let h = field.eval_heuristic_for_move(m);
                let _ = field.make_move(m);
                let f = g as i128 + h as i128;
                let id = self.nodes.len();
                let node = AStarNode { id, parent_id: cur_id, field, g, h, f };
                let ghost old_nodes = self.arena();
                let ghost old_front = self.frontier();
                self.nodes.push(node);
                self.open.insert(OpenEntry { f, id });
                proof {
                    let nodes = self.arena();
                    assert(nodes[cur_id as int] == current);
                    assert(is_legal(current.field@, m) && after_move(current.field@, m) == field@);
                    assert(node_ok(nodes, id as int));
                    assert forall|q: int| 0 <= q < nodes.len() implies #[trigger] node_ok(nodes, q) by {
                        if q < id {
                            assert(node_ok(old_nodes, q));
                        }
                    }
                    assert(nodes.take(base as int) =~= before.arena()) by {
                        assert(old_nodes.take(base as int) == before.arena());
                    }
                    assert forall|j: int| 0 <= j < i + 1 implies {
                        let c = #[trigger] nodes[base + j];
                        c.parent_id == current.id && c.g == current.g + 1 && c.field@ == after_move(
                            current.field@,
                            moves@.take(i + 1)[j],
                        )
                    } by {
                        if j < i {
                            assert(moves@.take(i as int)[j] == moves@.take(i + 1)[j]);
                            assert(nodes[base + j] == old_nodes[base + j]);
                        }
                    }
                    assert(entries_from(nodes, base as int, i + 1) =~= entries_from(
                        old_nodes,
                        base as int,
                        i as int,
                    ).push(OpenEntry { f, id }));
                    assert(self.frontier() =~= after_pop + entries_from(nodes, base as int, i + 1));
                }
            }
            i += 1;
        }
        assert(moves@.take(moves@.len() as int) =~= moves@);
        assert(popped_step(before, *self, k, None));
        None
    }

    /// Every node but the root has `f == g + h`, and a `g` one more than its parent's.
    pub proof fn lemma_arena_costs(&self)
        requires
            self.wf(),
        ensures
            forall|i: int|
                1 <= i < self.arena().len() ==> {
                    let n = #[trigger] self.arena()[i];
                    &&& n.f == n.g + n.h
                    &&& n.parent_id < i
                    &&& n.g == self.arena()[n.parent_id as int].g + 1
                },
    {
        assert forall|i: int| 1 <= i < self.arena().len() implies {
            let n = #[trigger] self.arena()[i];
            &&& n.f == n.g + n.h
            &&& n.parent_id < i
            &&& n.g == self.arena()[n.parent_id as int].g + 1
        } by {
            assert(node_ok(self.arena(), i));
        }
    }

    /// The root is its own parent and has `g == 0`.
    pub proof fn lemma_root(&self)
        requires
            self.wf(),
        ensures
            self.arena()[0].id == 0,
            self.arena()[0].parent_id == self.arena()[0].id,
            self.arena()[0].g == 0,
    {
        assert(node_ok(self.arena(), 0));
    }

    /// How many nodes the arena holds.
    pub fn node_count(&self) -> (r: usize)
        ensures
            r == self.arena().len(),
    {
        self.nodes.len()
    }

    /// How many nodes wait for expansion.
    pub fn open_count(&self) -> (r: usize)
        ensures
            r == self.frontier().len(),
    {
        self.open.len()
    }

    /// The boards from the root to node `id`, root first, following parent links.
    fn reconstruct(&self, id: usize) -> (states: Vec<Field>)
        requires
            self.wf(),
            id < self.arena().len(),
        ensures
            states@.len() >= 1,
            states@[0] == self.arena()[0].field,
            states@.last() == self.arena()[id as int].field,
            forall|k: int| 0 <= k < states@.len() - 1 ==> !solved(#[trigger] states@[k]@),
            forall|k: int|
                0 <= k < states@.len() - 1 ==> is_step(#[trigger] states@[k]@, states@[k + 1]@),
    {
        let mut cur = id;
        let mut back: Vec<Field> = Vec::new();
        back.push(self.nodes[id].field);
        while self.nodes[cur].parent_id != cur
            invariant
                self.wf(),
                cur < self.arena().len(),
                back@.len() >= 1,
                back@[0] == self.arena()[id as int].field,
                back@.last() == self.arena()[cur as int].field,
                forall|k: int| 1 <= k < back@.len() ==> !solved(#[trigger] back@[k]@),
                forall|k: int|
                    0 <= k < back@.len() - 1 ==> is_step(#[trigger] back@[k + 1]@, back@[k]@),
            decreases cur,
        {
            assert(node_ok(self.arena(), cur as int));
            cur = self.nodes[cur].parent_id;
            back.push(self.nodes[cur].field);
        }
        assert(node_ok(self.arena(), cur as int));
        let mut states: Vec<Field> = Vec::new();
        let mut i: usize = back.len();
        while i > 0
            invariant
                i <= back@.len(),
                states@.len() == back@.len() - i,
                forall|k: int|
                    0 <= k < states@.len() ==> #[trigger] states@[k] == back@[back@.len() - 1 - k],
            decreases i,
        {
            i -= 1;
            states.push(back[i]);
        }
        assert forall|k: int| 0 <= k < states@.len() - 1 implies !solved(#[trigger] states@[k]@) by {
            assert(states@[k] == back@[back@.len() - 1 - k]);
        }
        assert forall|k: int| 0 <= k < states@.len() - 1 implies is_step(
            #[trigger] states@[k]@,
            states@[k + 1]@,
        ) by {
            let j = back@.len() - 2 - k;
            assert(states@[k] == back@[j + 1]);
            assert(states@[k + 1] == back@[j]);
        }
        states
    }
}

} // verus!
