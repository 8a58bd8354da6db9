//! One tree of the Monte-Carlo search, with RAVE statistics.
//!
//! A simulation goes down the tree from the root. At each node on the way the
//! caller says which edge to follow, by whatever measure of promise it likes; the
//! tree grows by at most one node, the game is played out from there, and the
//! result is carried back up. What the tree keeps hold of is independent of the
//! measure: every edge of the root is a legal move, and every count is sound.

use vstd::prelude::*;

use crate::area;
use crate::bits::Bits;
use crate::board;
use crate::board::{Board, Color, Move, Point, Position};
use crate::mcts;
use crate::mcts::{Params, Playout, Rng};
use crate::rules;

verus! {

/// A move out of a node, the node it leads to if there is one yet, and how it
/// fared when it was played some time after the node.
#[derive(Clone, Copy, PartialEq, Eq, Debug, Structural)]
pub struct Edge {
    pub mv: Move,
    pub child: Option<u32>,
    pub rave_visits: u32,
    pub rave_wins: u32,
}

/// One step down the tree: from which node, by which edge, and how many stones
/// had been played before it.
#[derive(Clone, Copy, PartialEq, Eq, Debug, Structural)]
pub struct Step {
    pub node: u32,
    pub edge: u32,
    pub before: u32,
}

/// What a node says.
pub struct NodeState {
    pub to_move: Color,
    pub visits: int,
    /// Playouts won by the player who moved into this node.
    pub wins: int,
    pub edges: Seq<Edge>,
}

/// What a tree says, and where in it a simulation stands.
pub struct TreeState {
    pub root: Position,
    pub params: Params,
    pub nodes: Seq<NodeState>,
    pub rng: u64,
    pub playouts: int,
    /// The steps of the simulation so far.
    pub path: Seq<Step>,
    /// The stones it has played so far.
    pub seq: Seq<(Point, Color)>,
    /// The position it has reached.
    pub board: Position,
    /// The node it stands at.
    pub here: int,
}

/// An edge that nothing is known of yet.
pub open spec fn fresh_edge(mv: Move) -> Edge {
    Edge { mv, child: None, rave_visits: 0, rave_wins: 0 }
}

/// A node that nothing is known of yet.
pub open spec fn fresh_node(to_move: Color) -> NodeState {
    NodeState { to_move, visits: 0, wins: 0, edges: Seq::empty() }
}

pub open spec fn swapped(s: Seq<Move>, i: int, j: int) -> Seq<Move> {
    s.update(i, s[j]).update(j, s[i])
}

/// The moves with the ones from place `i` down shuffled, each place taking one of
/// those left at random; and the state of the random numbers after that.
pub open spec fn shuffled(s: Seq<Move>, rng: u64, i: int) -> (Seq<Move>, u64)
    decreases i,
{
    if i <= 0 {
        (s, rng)
    } else {
        let drawn = mcts::advance(rng);
        shuffled(swapped(s, i, mcts::pick(drawn, (i + 1) as nat) as int), drawn, i - 1)
    }
}

/// An edge after a playout in which its move was played, or not, by the side that
/// won, or not.
pub open spec fn credit(e: Edge, hit: bool, won: bool) -> Edge {
    if hit {
        Edge {
            rave_visits: (e.rave_visits + 1) as u32,
            rave_wins: if won {
                (e.rave_wins + 1) as u32
            } else {
                e.rave_wins
            },
            ..e
        }
    } else {
        e
    }
}

/// Was the move of `e` played by `c` from the stone number `from` on?
pub open spec fn came_up(e: Edge, c: Color, moves: Seq<(Point, Color)>, from: int) -> bool {
    &&& e.mv is Play
    &&& exists|j: int| from <= j < moves.len() && #[trigger] moves[j] == (e.mv->Play_0, c)
}

impl TreeState {
    /// The edge that the `k`-th step took.
    pub open spec fn edge_taken(self, k: int) -> Edge {
        self.nodes[self.path[k].node as int].edges[self.path[k].edge as int]
    }

    /// The number of the step that led to the node `i`, if one did.
    pub open spec fn reached_by(self, i: int, k: int) -> bool {
        0 <= k < self.path.len() && self.edge_taken(k).child == Some(i as u32)
    }

    /// Did the step `k` leave from the node `i`?
    pub open spec fn left_by(self, i: int, k: int) -> bool {
        0 <= k < self.path.len() && self.path[k].node == i
    }

    pub open spec fn edge_ok(self, i: int, j: int) -> bool {
        let e = self.nodes[i].edges[j];
        &&& e.rave_wins <= e.rave_visits <= self.playouts
        &&& e.mv matches Move::Play(pt) ==> rules::on_board(self.root.size, pt as int)
        &&& e.child matches Some(c) ==> i < c < self.nodes.len() && self.nodes[c as int].to_move
            == self.nodes[i].to_move.spec_other()
    }

    pub open spec fn node_ok(self, i: int) -> bool {
        let n = self.nodes[i];
        &&& 0 <= n.wins <= n.visits <= self.playouts
        &&& n.edges.len() <= 362
        &&& forall|j: int| 0 <= j < n.edges.len() ==> #[trigger] self.edge_ok(i, j)
    }

    /// Is the root's edge `j` a pass, or a legal move that fills no own eye?
    pub open spec fn root_edge_ok(self, j: int) -> bool {
        match self.nodes[0].edges[j].mv {
            Move::Play(pt) => area::candidate(
                self.root.cells,
                self.root.ko,
                self.root.to_move,
                pt,
            ),
            Move::Pass => true,
            Move::Resign => false,
        }
    }

    /// The counters have room for what the tree has counted.
    pub open spec fn has_room(self) -> bool {
        &&& mcts::load(self.root) + self.playouts + 1200 <= u32::MAX
        &&& self.root.passes + 10 <= u32::MAX
    }

    /// There is room for one more simulation, and for the count of it.
    pub open spec fn next_has_room(self) -> bool {
        mcts::load(self.root) + self.playouts + 1201 <= u32::MAX
    }

    /// What holds of a tree at any time: nodes come after the nodes that lead to
    /// them, the players alternate, wins are no more than visits and those no more
    /// than playouts, and the root offers nothing but legal moves.
    pub open spec fn sound(self) -> bool {
        &&& self.root.wf()
        &&& 0 <= self.root.black_prisoners
        &&& 0 <= self.root.white_prisoners
        &&& 0 <= self.root.passes
        &&& self.has_room()
        &&& 0 <= self.playouts
        &&& 1 <= self.nodes.len() <= self.playouts + 2
        &&& self.nodes[0].to_move == self.root.to_move
        &&& self.nodes[0].visits == self.playouts
        &&& forall|i: int| 0 <= i < self.nodes.len() ==> #[trigger] self.node_ok(i)
        &&& forall|j: int| 0 <= j < self.nodes[0].edges.len() ==> #[trigger] self.root_edge_ok(j)
    }

    /// No simulation is under way.
    pub open spec fn at_rest(self) -> bool {
        self.sound() && self.nodes.len() <= self.playouts + 1
    }

    pub open spec fn step_ok(self, k: int) -> bool {
        let s = self.path[k];
        &&& s.node < self.nodes.len()
        &&& s.edge < self.nodes[s.node as int].edges.len()
        &&& self.edge_taken(k).child is Some
        &&& s.before <= self.seq.len()
        &&& k == 0 ==> s.node == 0
        &&& k > 0 ==> self.edge_taken(k - 1).child == Some(s.node) && self.path[k - 1].before
            <= s.before
    }

    /// A simulation has come this far: the path leads down from the root, and the
    /// board is what its moves have made of the root's.
    pub open spec fn landed(self) -> bool {
        &&& self.sound()
        &&& self.board.wf()
        &&& self.board.size == self.root.size
        &&& mcts::load(self.board) <= mcts::load(self.root) + self.path.len()
        &&& self.path.len() <= self.nodes.len()
        &&& self.seq.len() <= self.path.len()
        &&& forall|k: int| 0 <= k < self.path.len() ==> #[trigger] self.step_ok(k)
        &&& forall|j: int|
            0 <= j < self.seq.len() ==> rules::on_board(
                self.root.size,
                (#[trigger] self.seq[j]).0 as int,
            )
    }

    /// A simulation stands at a node and may go on from it.
    pub open spec fn descending(self) -> bool {
        &&& self.landed()
        &&& self.nodes.len() <= self.playouts + 1
        &&& self.path.len() <= self.here < self.nodes.len()
        &&& self.board.to_move == self.nodes[self.here].to_move
        &&& self.path.len() == 0 ==> self.here == 0 && self.board == self.root
        &&& self.path.len() > 0 ==> self.edge_taken(self.path.len() - 1).child == Some(
            self.here as u32,
        )
    }

    /// The tree of a position that has not been searched.
    pub open spec fn planted(root: Position, params: Params, seed: u64) -> TreeState {
        TreeState {
            root,
            params,
            nodes: seq![fresh_node(root.to_move)],
            rng: seed ^ crate::zobrist::GOLDEN,
            playouts: 0,
            path: Seq::empty(),
            seq: Seq::empty(),
            board: root,
            here: 0,
        }
    }

    /// A simulation starts at the root.
    pub open spec fn begun(self) -> TreeState {
        TreeState { path: Seq::empty(), seq: Seq::empty(), board: self.root, here: 0, ..self }
    }

    /// Should the node that the simulation has come to be given its edges: has it
    /// none, is it the root or warm enough, and is there room?
    pub open spec fn should_expand(self) -> bool {
        let n = self.nodes[self.here];
        &&& n.edges.len() == 0
        &&& self.here == 0 || n.visits >= self.params.expand_threshold
        &&& self.nodes.len() < self.params.max_nodes
    }

    /// The node at hand has edges for all candidate moves, in random order, so that
    /// equal-valued moves are not always broken towards A1.
    pub open spec fn expanded(self) -> TreeState {
        let n = self.nodes[self.here];
        let moves = self.board.candidate_moves(n.to_move);
        let (mixed, rng) = shuffled(moves, self.rng, moves.len() - 1);
        let edges = mixed.map_values(|mv: Move| fresh_edge(mv));
        TreeState {
            nodes: self.nodes.update(self.here, NodeState { edges, ..n }),
            rng,
            ..self
        }
    }

    /// The simulation has come to a node and looked at it.
    pub open spec fn arrived(self) -> TreeState {
        if self.should_expand() {
            self.expanded()
        } else {
            self
        }
    }

    /// Is there an edge to be chosen at the node at hand?
    pub open spec fn has_choice(self) -> bool {
        self.nodes[self.here].edges.len() > 0 && self.board.passes < 2
    }

    /// The simulation after following the edge `j` of the node at hand. Where the
    /// move of the edge turns out to be illegal, the edge is dropped; where it
    /// leads to no node yet, a new one is made. Both end the way down.
    pub open spec fn followed(self, j: int) -> TreeState {
        let n = self.nodes[self.here];
        let e = n.edges[j];
        match self.board.outcome(e.mv) {
            Err(_) => TreeState {
                nodes: self.nodes.update(
                    self.here,
                    NodeState { edges: n.edges.update(j, n.edges.last()).drop_last(), ..n },
                ),
                ..self
            },
            Ok(next) => {
                let moved = TreeState {
                    board: next,
                    path: self.path.push(
                        Step {
                            node: self.here as u32,
                            edge: j as u32,
                            before: self.seq.len() as u32,
                        },
                    ),
                    seq: match e.mv {
                        Move::Play(pt) => self.seq.push((pt, n.to_move)),
                        _ => self.seq,
                    },
                    ..self
                };
                match e.child {
                    Some(c) => TreeState { here: c as int, ..moved },
                    None => TreeState {
                        nodes: self.nodes.update(
                            self.here,
                            NodeState {
                                edges: n.edges.update(
                                    j,
                                    Edge { child: Some(self.nodes.len() as u32), ..e },
                                ),
                                ..n
                            },
                        ).push(fresh_node(next.to_move)),
                        ..moved
                    },
                }
            },
        }
    }

    /// Does following the edge `j` lead on to another node?
    pub open spec fn leads_on(self, j: int) -> bool {
        let e = self.nodes[self.here].edges[j];
        self.board.outcome(e.mv) is Ok && e.child is Some
    }

    /// The node `i` after a playout that `winner` has won, in which the stones
    /// `moves` were played. It has been visited if the simulation came to it, and
    /// won if whoever moved into it has won. Its edges are credited, if the
    /// simulation went through it, for every move that its player made from there
    /// on: "this move, some time soon".
    pub open spec fn node_after(self, i: int, moves: Seq<(Point, Color)>, winner: Color) -> NodeState {
        let n = self.nodes[i];
        let reached = i == 0 || exists|k: int| self.reached_by(i, k);
        let won = exists|k: int| #[trigger]
            self.reached_by(i, k) && self.nodes[self.path[k].node as int].to_move == winner;
        NodeState {
            to_move: n.to_move,
            visits: n.visits + if reached {
                1int
            } else {
                0
            },
            wins: n.wins + if won {
                1int
            } else {
                0
            },
            edges: Seq::new(
                n.edges.len(),
                |j: int|
                    credit(
                        n.edges[j],
                        exists|k: int| #[trigger]
                            self.left_by(i, k) && came_up(
                                n.edges[j],
                                n.to_move,
                                moves,
                                self.path[k].before as int,
                            ),
                        winner == n.to_move,
                    ),
            ),
        }
    }

    /// The simulation has been played out, and its result carried back up both the
    /// tree and the RAVE statistics.
    pub open spec fn finished(self) -> TreeState {
        let end = Playout::from(self.board, self.rng, self.seq).finished(
            self.params.atari_answer_percent,
        );
        let winner = mcts::winner_of(end.pos, self.params.komi);
        TreeState {
            nodes: Seq::new(
                self.nodes.len(),
                |i: int| self.node_after(i, end.moves, winner),
            ),
            rng: end.rng,
            playouts: self.playouts + 1,
            seq: end.moves,
            board: end.pos,
            ..self
        }
    }
}

/// A node of the tree.
pub struct Node {
    to_move: Color,
    visits: u32,
    wins: u32,
    edges: Vec<Edge>,
}

impl View for Node {
    type V = NodeState;

    closed spec fn view(&self) -> NodeState {
        NodeState {
            to_move: self.to_move,
            visits: self.visits as int,
            wins: self.wins as int,
            edges: self.edges@,
        }
    }
}

pub struct Tree {
    root: Board,
    params: Params,
    nodes: Vec<Node>,
    rng: Rng,
    playouts: u64,
    // Kept across simulations so that one of them allocates nothing.
    path: Vec<Step>,
    seq: Vec<(Point, Color)>,
    empties: Vec<Point>,
    board: Board,
    here: u32,
}

impl View for Tree {
    type V = TreeState;

    closed spec fn view(&self) -> TreeState {
        TreeState {
            root: self.root@,
            params: self.params,
            nodes: Seq::new(self.nodes@.len(), |i: int| self.nodes@[i]@),
            rng: self.rng@,
            playouts: self.playouts as int,
            path: self.path@,
            seq: self.seq@,
            board: self.board@,
            here: self.here as int,
        }
    }
}

proof fn lemma_swapped(s: Seq<Move>, i: int, j: int)
    requires
        0 <= i < s.len(),
        0 <= j < s.len(),
    ensures
        forall|x: Move| #[trigger] swapped(s, i, j).contains(x) ==> s.contains(x),
{
    assert forall|x: Move| #[trigger] swapped(s, i, j).contains(x) implies s.contains(x) by {
        let t = swapped(s, i, j);
        let k = choose|k: int| 0 <= k < t.len() && t[k] == x;
        if k == j {
            assert(s[i] == x);
        } else if k == i {
            assert(s[j] == x);
        } else {
            assert(s[k] == x);
        }
    }
}

/// Shuffling brings in no new moves.
pub proof fn lemma_shuffled(s: Seq<Move>, rng: u64, i: int)
    requires
        i < s.len(),
        s.len() <= 0x1_0000_0000,
    ensures
        (shuffled(s, rng, i)).0.len() == s.len(),
        forall|x: Move| #[trigger] (shuffled(s, rng, i)).0.contains(x) ==> s.contains(x),
    decreases i,
{
    if i > 0 {
        let drawn = mcts::advance(rng);
        let j = mcts::pick(drawn, (i + 1) as nat) as int;
        mcts::lemma_pick(drawn, (i + 1) as nat);
        lemma_swapped(s, i, j);
        lemma_shuffled(swapped(s, i, j), drawn, i - 1);
    }
}

proof fn lemma_filtered(s: Seq<Point>, keep: spec_fn(Point) -> bool, pt: Point)
    requires
        s.filter(keep).contains(pt),
    ensures
        s.contains(pt),
        keep(pt),
    decreases s.len(),
{
    reveal(Seq::filter);
    let kept = s.filter(keep);
    let k = choose|k: int| 0 <= k < kept.len() && kept[k] == pt;
    if s.len() > 0 {
        let less = s.drop_last();
        if k < less.filter(keep).len() {
            assert(less.filter(keep)[k] == pt);
            lemma_filtered(less, keep, pt);
            let i = choose|i: int| 0 <= i < less.len() && less[i] == pt;
            assert(s[i] == pt);
        } else {
            assert(s[s.len() - 1] == pt);
        }
    }
}

/// The candidate moves are the points that are candidates, and a pass.
pub proof fn lemma_candidate_moves(pos: Position, c: Color)
    requires
        pos.wf(),
    ensures
        0 < pos.candidate_moves(c).len() <= 362,
        forall|mv: Move| #[trigger]
            pos.candidate_moves(c).contains(mv) ==> match mv {
                Move::Play(pt) => rules::on_board(pos.size, pt as int) && area::candidate(
                    pos.cells,
                    pos.ko,
                    c,
                    pt,
                ),
                Move::Pass => true,
                Move::Resign => false,
            },
{
    let good = |pt: Point| area::candidate(pos.cells, pos.ko, c, pt);
    let pts = board::points_of(pos.size);
    let kept = pts.filter(good);
    let size = pos.size;
    assert(size * size <= 361) by (nonlinear_arith)
        requires
            0 <= size <= 19,
    ;
    pts.lemma_filter_len(good);
    let moves = kept.map_values(|pt: Point| Move::Play(pt));
    let all = pos.candidate_moves(c);
    assert(all == moves.push(Move::Pass));
    assert forall|mv: Move| #[trigger] all.contains(mv) implies match mv {
        Move::Play(pt) => rules::on_board(pos.size, pt as int) && area::candidate(
            pos.cells,
            pos.ko,
            c,
            pt,
        ),
        Move::Pass => true,
        Move::Resign => false,
    } by {
        let k = choose|k: int| 0 <= k < all.len() && all[k] == mv;
        if k < moves.len() {
            let pt = kept[k];
            assert(mv == Move::Play(pt));
            assert(kept.contains(pt));
            lemma_filtered(pts, good, pt);
            let i = choose|i: int| 0 <= i < pts.len() && pts[i] == pt;
            board::lemma_points_on_board(pos.size, i);
        }
    }
}

impl Tree {
    /// A tree for the side to move at `root`.
    pub fn new(root: &Board, params: Params, seed: u64) -> (t: Tree)
        requires
            root@.wf(),
            mcts::load(root@) + 1200 <= u32::MAX,
            root@.passes + 10 <= u32::MAX,
        ensures
            t@ == TreeState::planted(root@, params, seed),
            t@.at_rest(),
    {
        let mut nodes: Vec<Node> = Vec::new();
        nodes.push(Node { to_move: root.to_move(), visits: 0, wins: 0, edges: Vec::new() });
        let t = Tree {
            root: *root,
            params,
            nodes,
            rng: Rng::new(seed),
            playouts: 0,
            path: Vec::new(),
            seq: Vec::new(),
            empties: Vec::new(),
            board: *root,
            here: 0,
        };
        proof {
            let planted = TreeState::planted(root@, params, seed);
            root.lemma_ranges();
            assert(t@.nodes[0].edges =~= Seq::<Edge>::empty());
            assert(t@.nodes =~= planted.nodes);
            assert(t@.path =~= planted.path);
            assert(t@.seq =~= planted.seq);
        }
        t
    }

    /// How many simulations have been finished.
    pub fn playouts(&self) -> (r: u64)
        ensures
            r == self@.playouts,
    {
        self.playouts
    }

    /// The node that the simulation stands at.
    pub fn here(&self) -> (r: usize)
        ensures
            r == self@.here,
    {
        self.here as usize
    }

    pub fn node_count(&self) -> (r: usize)
        ensures
            r == self@.nodes.len(),
    {
        self.nodes.len()
    }

    /// The visits of a node, and how many of them were won by whoever moved into
    /// it.
    pub fn node_stats(&self, node: usize) -> (r: (u32, u32))
        requires
            node < self@.nodes.len(),
        ensures
            r.0 == self@.nodes[node as int].visits,
            r.1 == self@.nodes[node as int].wins,
    {
        (self.nodes[node].visits, self.nodes[node].wins)
    }

    pub fn edge_count(&self, node: usize) -> (r: usize)
        requires
            node < self@.nodes.len(),
        ensures
            r == self@.nodes[node as int].edges.len(),
    {
        self.nodes[node].edges.len()
    }

    pub fn edge(&self, node: usize, i: usize) -> (r: Edge)
        requires
            node < self@.nodes.len(),
            i < self@.nodes[node as int].edges.len(),
        ensures
            r == self@.nodes[node as int].edges[i as int],
    {
        self.nodes[node].edges[i]
    }

    /// Have the counters room for one more simulation?
    pub fn can_go_on(&self) -> (r: bool)
        requires
            self@.at_rest(),
        ensures
            r == self@.next_has_room(),
    {
        let stones: u64 = self.root.stone_count() as u64;
        let taken: u64 = self.root.prisoners(Color::Black) as u64 + self.root.prisoners(
            Color::White,
        ) as u64;
        stones + taken + self.playouts + 1201 <= u32::MAX as u64
    }

    /// Starts a simulation at the root.
    pub fn begin(&mut self)
        requires
            old(self)@.at_rest(),
            old(self)@.next_has_room(),
        ensures
            final(self)@ == old(self)@.begun(),
            final(self)@.descending(),
    {
        self.path.clear();
        self.seq.clear();
        self.board = self.root;
        self.here = 0;
        proof {
            assert(self@.nodes =~= old(self)@.nodes);
            assert(self@ == old(self)@.begun());
            lemma_same_nodes(old(self)@, self@);
        }
    }

    /// Looks at the node that the simulation has come to, giving it edges if it is
    /// time to, and says whether one of them has to be chosen.
    pub fn arrive(&mut self) -> (r: bool)
        requires
            old(self)@.descending(),
            old(self)@.next_has_room(),
        ensures
            final(self)@ == old(self)@.arrived(),
            r == final(self)@.has_choice(),
            final(self)@.descending(),
            final(self)@.next_has_room(),
    {
        let here: usize = self.here as usize;
        if self.nodes[here].edges.len() == 0 {
            let warm: bool = self.nodes[here].visits >= self.params.expand_threshold;
            let room: bool = self.nodes.len() < self.params.max_nodes;
            if (here == 0 || warm) && room {
                self.expand();
            }
        }
        self.nodes[here].edges.len() > 0 && self.board.passes() < 2
    }

    /// Gives the node at hand an edge for every candidate move.
    fn expand(&mut self)
        requires
            old(self)@.descending(),
            old(self)@.should_expand(),
        ensures
            final(self)@ == old(self)@.expanded(),
            final(self)@.descending(),
    {
        let ghost was = self@;
        let here: usize = self.here as usize;
        let colour: Color = self.nodes[here].to_move;
        let mut moves: Vec<Move> = Vec::new();
        self.board.candidate_moves(colour, &mut moves);
        let ghost all = moves@;
        proof {
            lemma_candidate_moves(self@.board, colour);
            lemma_shuffled(all, self@.rng, all.len() - 1);
        }
        // Shuffle so that equal-valued moves are not always broken towards A1.
        let mut i: usize = moves.len() - 1;
        while i > 0
            invariant
                i < moves.len() <= 362,
                self@.nodes == was.nodes,
                self@ == (TreeState { rng: self.rng@, ..was }),
                shuffled(all, was.rng, all.len() - 1) == shuffled(moves@, self.rng@, i as int),
            decreases i,
        {
            let j: usize = self.rng.below(i + 1);
            let ghost before = moves@;
            let t: Move = moves[i];
            let u: Move = moves[j];
            moves[i] = u;
            moves[j] = t;
            proof {
                assert(moves@ =~= swapped(before, i as int, j as int));
                assert(self@.nodes =~= was.nodes);
            }
            i -= 1;
        }
        let mut edges: Vec<Edge> = Vec::new();
        let mut k: usize = 0;
        while k < moves.len()
            invariant
                k <= moves.len(),
                edges@ =~= moves@.map_values(|mv: Move| fresh_edge(mv)).take(k as int),
            decreases moves.len() - k,
        {
            edges.push(Edge { mv: moves[k], child: None, rave_visits: 0, rave_wins: 0 });
            k += 1;
        }
        self.nodes[here].edges = edges;
        proof {
            assert(edges@ =~= moves@.map_values(|mv: Move| fresh_edge(mv)));
            assert(self@.nodes =~= was.expanded().nodes);
            assert(self@ == was.expanded());
            lemma_expanded(was);
        }
    }

    /// Follows the edge `i` of the node at hand, and says whether it leads on to
    /// another node.
    pub fn follow(&mut self, i: usize) -> (r: bool)
        requires
            old(self)@.descending(),
            old(self)@.next_has_room(),
            old(self)@.has_choice(),
            i < old(self)@.nodes[old(self)@.here].edges.len(),
        ensures
            final(self)@ == old(self)@.followed(i as int),
            r == old(self)@.leads_on(i as int),
            r ==> final(self)@.descending(),
            final(self)@.landed(),
            final(self)@.next_has_room(),
    {
        let ghost was = self@;
        let here: usize = self.here as usize;
        let edge: Edge = self.nodes[here].edges[i];
        let mover: Color = self.nodes[here].to_move;
        proof {
            assert(was.node_ok(was.here));
            assert(was.edge_ok(was.here, i as int));
            self.board.lemma_ranges();
            mcts::lemma_load(was.board, edge.mv);
            lemma_followed(was, i as int);
        }
        if self.board.play(edge.mv).is_err() {
            // The position moved on under an edge built for an earlier one (a ko
            // point, say). Drop the edge and try again next time.
            self.nodes[here].edges.swap_remove(i);
            proof {
                assert(self@.nodes =~= was.followed(i as int).nodes);
            }
            return false;
        }
        let before: u32 = self.seq.len() as u32;
        if let Move::Play(pt) = edge.mv {
            self.seq.push((pt, mover));
        }
        self.path.push(Step { node: self.here, edge: i as u32, before });
        match edge.child {
            Some(c) => {
                self.here = c;
                proof {
                    assert(self@.nodes =~= was.followed(i as int).nodes);
                }
                true
            },
            None => {
                let new: u32 = self.nodes.len() as u32;
                self.nodes.push(
                    Node { to_move: self.board.to_move(), visits: 0, wins: 0, edges: Vec::new() },
                );
                self.nodes[here].edges[i].child = Some(new);
                proof {
                    let next = was.followed(i as int);
                    assert(self@.nodes[was.nodes.len() as int].edges =~= Seq::<Edge>::empty());
                    assert(self@.nodes[was.here].edges =~= next.nodes[was.here].edges);
                    assert(self@.nodes =~= next.nodes);
                }
                false
            },
        }
    }
}

/// Two trees with the same nodes and roots are sound alike.
proof fn lemma_same_nodes(a: TreeState, b: TreeState)
    requires
        a.sound(),
        a.nodes == b.nodes,
        a.root == b.root,
        a.playouts == b.playouts,
    ensures
        b.sound(),
{
    assert forall|i: int| 0 <= i < b.nodes.len() implies #[trigger] b.node_ok(i) by {
        assert(a.node_ok(i));
        assert forall|j: int| 0 <= j < b.nodes[i].edges.len() implies #[trigger] b.edge_ok(i, j) by {
            assert(a.edge_ok(i, j));
        }
    }
    assert forall|j: int| 0 <= j < b.nodes[0].edges.len() implies #[trigger] b.root_edge_ok(j) by {
        assert(a.root_edge_ok(j));
    }
}

/// Steps stay sound while the edges they took and the stones before them stay.
proof fn lemma_same_steps(a: TreeState, b: TreeState, n: int)
    requires
        0 <= n <= a.path.len(),
        n <= b.path.len(),
        a.nodes.len() <= b.nodes.len(),
        a.seq.len() <= b.seq.len(),
        forall|k: int| 0 <= k < n ==> #[trigger] a.step_ok(k),
        forall|k: int| 0 <= k < n ==> #[trigger] b.path[k] == a.path[k],
        forall|k: int|
            0 <= k < n ==> {
                let i = (#[trigger] a.path[k]).node as int;
                let j = a.path[k].edge as int;
                j < b.nodes[i].edges.len() && b.nodes[i].edges[j] == a.nodes[i].edges[j]
            },
    ensures
        forall|k: int| 0 <= k < n ==> #[trigger] b.step_ok(k),
{
    assert forall|k: int| 0 <= k < n implies #[trigger] b.step_ok(k) by {
        assert(a.step_ok(k));
        assert(b.path[k] == a.path[k]);
        assert(b.edge_taken(k) == a.edge_taken(k));
        if k > 0 {
            assert(a.step_ok(k - 1));
            assert(b.path[k - 1] == a.path[k - 1]);
            assert(b.edge_taken(k - 1) == a.edge_taken(k - 1));
        }
    }
}

/// The nodes that a path goes through come one after the other, so that no step
/// leaves from a node twice or from the node it has come to.
proof fn lemma_path_increases(t: TreeState, k: int, m: int)
    requires
        t.landed(),
        0 <= k < m < t.path.len(),
    ensures
        t.path[k].node < t.path[m].node,
        t.edge_taken(k).child->0 <= t.path[m].node,
        t.path[k].before <= t.path[m].before,
    decreases m - k,
{
    assert(t.step_ok(m));
    assert(t.step_ok(m - 1));
    let i = t.path[m - 1].node as int;
    assert(t.node_ok(i));
    assert(t.edge_ok(i, t.path[m - 1].edge as int));
    if k < m - 1 {
        lemma_path_increases(t, k, m - 1);
    }
}

proof fn lemma_before_here(t: TreeState, k: int)
    requires
        t.descending(),
        0 <= k < t.path.len(),
    ensures
        t.path[k].node < t.here,
{
    let m = t.path.len() - 1;
    assert(t.step_ok(m));
    let i = t.path[m].node as int;
    assert(t.node_ok(i));
    assert(t.edge_ok(i, t.path[m].edge as int));
    if k < m {
        lemma_path_increases(t, k, m);
    }
}

proof fn lemma_expanded(t: TreeState)
    requires
        t.descending(),
        t.should_expand(),
    ensures
        t.expanded().descending(),
{
    let n = t.nodes[t.here];
    let moves = t.board.candidate_moves(n.to_move);
    let (mixed, rng) = shuffled(moves, t.rng, moves.len() - 1);
    let e = t.expanded();
    lemma_candidate_moves(t.board, n.to_move);
    lemma_shuffled(moves, t.rng, moves.len() - 1);
    assert(mixed.len() == moves.len());
    assert forall|j: int| 0 <= j < mixed.len() implies moves.contains(#[trigger] mixed[j]) by {
        assert(mixed.contains(mixed[j]));
    }
    assert forall|i: int| 0 <= i < e.nodes.len() implies #[trigger] e.node_ok(i) by {
        assert(t.node_ok(i));
        assert forall|j: int| 0 <= j < e.nodes[i].edges.len() implies #[trigger] e.edge_ok(i, j) by {
            if i != t.here {
                assert(t.edge_ok(i, j));
            } else {
                assert(e.nodes[i].edges[j] == fresh_edge(mixed[j]));
                assert(moves.contains(mixed[j]));
            }
        }
    }
    assert forall|j: int| 0 <= j < e.nodes[0].edges.len() implies #[trigger] e.root_edge_ok(j) by {
        if t.here == 0 {
            assert(t.path.len() == 0);
            assert(e.nodes[0].edges[j] == fresh_edge(mixed[j]));
            assert(moves.contains(mixed[j]));
        } else {
            assert(t.root_edge_ok(j));
        }
    }
    assert forall|k: int| 0 <= k < t.path.len() implies {
        let i = (#[trigger] t.path[k]).node as int;
        let j = t.path[k].edge as int;
        j < e.nodes[i].edges.len() && e.nodes[i].edges[j] == t.nodes[i].edges[j]
    } by {
        assert(t.step_ok(k));
        lemma_before_here(t, k);
    }
    lemma_same_steps(t, e, t.path.len() as int);
    if t.path.len() > 0 {
        let m = t.path.len() - 1;
        assert(t.step_ok(m));
        lemma_before_here(t, m);
    }
}

proof fn lemma_followed(t: TreeState, j: int)
    requires
        t.descending(),
        t.next_has_room(),
        t.has_choice(),
        0 <= j < t.nodes[t.here].edges.len(),
        0 <= t.board.black_prisoners,
        0 <= t.board.white_prisoners,
    ensures
        t.followed(j).landed(),
        t.followed(j).next_has_room(),
        t.leads_on(j) ==> t.followed(j).descending(),
{
    let n = t.nodes[t.here];
    let e = n.edges[j];
    let f = t.followed(j);
    let here = t.here;
    assert(t.node_ok(here));
    assert(t.edge_ok(here, j));
    mcts::lemma_load(t.board, e.mv);
    let cut = n.edges.update(j, n.edges.last()).drop_last();
    let refused = t.board.outcome(e.mv) is Err;
    assert(f.nodes[0].to_move == t.root.to_move);
    assert forall|i: int| 0 <= i < f.nodes.len() implies #[trigger] f.node_ok(i) by {
        if i < t.nodes.len() {
            assert(t.node_ok(i));
            assert forall|m: int| 0 <= m < f.nodes[i].edges.len() implies #[trigger] f.edge_ok(
                i,
                m,
            ) by {
                if i != here {
                    assert(t.edge_ok(i, m));
                } else if refused {
                    assert(f.nodes[i].edges == cut);
                    if m == j {
                        assert(t.edge_ok(i, n.edges.len() - 1));
                    } else {
                        assert(t.edge_ok(i, m));
                    }
                } else {
                    assert(t.edge_ok(i, m));
                }
            }
        }
    }
    assert forall|m: int| 0 <= m < f.nodes[0].edges.len() implies #[trigger] f.root_edge_ok(m) by {
        if here == 0 && refused {
            assert(f.nodes[0].edges == cut);
            if m == j {
                assert(t.root_edge_ok(n.edges.len() - 1));
            } else {
                assert(t.root_edge_ok(m));
            }
        } else {
            assert(t.root_edge_ok(m));
        }
    }
    assert forall|k: int| 0 <= k < t.path.len() implies {
        let a = (#[trigger] t.path[k]).node as int;
        let b = t.path[k].edge as int;
        b < f.nodes[a].edges.len() && f.nodes[a].edges[b] == t.nodes[a].edges[b]
    } by {
        assert(t.step_ok(k));
        lemma_before_here(t, k);
    }
    lemma_same_steps(t, f, t.path.len() as int);
    if !refused {
        let k = t.path.len() as int;
        assert(f.step_ok(k)) by {
            if k > 0 {
                assert(t.step_ok(k - 1));
                lemma_before_here(t, k - 1);
                assert(f.path[k - 1] == t.path[k - 1]);
                assert(f.edge_taken(k - 1) == t.edge_taken(k - 1));
            }
        }
    }
}

impl TreeState {
    /// The steps go down the tree, each from a node to a later one, and each node is
    /// left at most once.
    spec fn ordered(self) -> bool {
        &&& forall|k: int| 0 <= k < self.path.len() ==> #[trigger] self.step_forward(k)
        &&& forall|k: int, m: int|
            0 <= k < m < self.path.len() ==> {
                &&& (#[trigger] self.path[k]).node < (#[trigger] self.path[m]).node
                &&& self.edge_taken(k).child->0 <= self.path[m].node
                &&& self.path[k].before <= self.path[m].before
            }
    }

    spec fn step_forward(self, k: int) -> bool {
        let s = self.path[k];
        &&& s.node < self.nodes.len()
        &&& s.edge < self.nodes[s.node as int].edges.len()
        &&& s.before <= self.seq.len()
        &&& self.edge_taken(k).child matches Some(c) && s.node < c < self.nodes.len()
    }

    /// Has one of the first `n` steps led to the node `i`?
    spec fn reached_upto(self, i: int, n: int) -> bool {
        exists|k: int| k < n && #[trigger] self.reached_by(i, k)
    }

    /// Has one of the first `n` steps, made by the winner, led to the node `i`?
    spec fn won_upto(self, i: int, n: int, winner: Color) -> bool {
        exists|k: int|
            k < n && #[trigger] self.reached_by(i, k)
                && self.nodes[self.path[k].node as int].to_move == winner
    }

    /// Has a step from number `n` on left the node `i`, after which the move of the
    /// edge came up?
    spec fn hit_from(self, i: int, e: Edge, n: int) -> bool {
        exists|k: int|
            n <= k && #[trigger] self.left_by(i, k) && came_up(
                e,
                self.nodes[i].to_move,
                self.seq,
                self.path[k].before as int,
            )
    }

    /// Every count of visits has room for one more.
    spec fn countable(self) -> bool {
        &&& self.ordered()
        &&& 0 < self.nodes.len() <= u32::MAX
        &&& forall|i: int|
            0 <= i < self.nodes.len() ==> (#[trigger] self.nodes[i]).wins <= self.nodes[i].visits
                < u32::MAX
    }

    /// Every count of credits has room for one more, and every point is a cell.
    spec fn creditable(self) -> bool {
        &&& self.ordered()
        &&& forall|i: int, j: int|
            0 <= i < self.nodes.len() && 0 <= j < self.nodes[i].edges.len() ==> {
                let e = #[trigger] self.nodes[i].edges[j];
                e.rave_wins <= e.rave_visits < u32::MAX && (e.mv matches Move::Play(pt) ==> pt
                    < 441)
            }
        &&& forall|j: int| 0 <= j < self.seq.len() ==> (#[trigger] self.seq[j]).0 < 441
    }

    /// The node `i` with the visits of the first `n` steps counted.
    spec fn counted_node(self, i: int, n: int, winner: Color) -> NodeState {
        NodeState {
            visits: self.nodes[i].visits + if i == 0 || self.reached_upto(i, n) {
                1int
            } else {
                0
            },
            wins: self.nodes[i].wins + if self.won_upto(i, n, winner) {
                1int
            } else {
                0
            },
            ..self.nodes[i]
        }
    }

    /// The tree with the visits of all steps counted.
    spec fn counted(self, winner: Color) -> TreeState {
        TreeState {
            nodes: Seq::new(
                self.nodes.len(),
                |i: int| self.counted_node(i, self.path.len() as int, winner),
            ),
            ..self
        }
    }

    /// The tree with the moves that came up credited.
    spec fn credited(self, winner: Color) -> TreeState {
        TreeState {
            nodes: Seq::new(
                self.nodes.len(),
                |i: int| NodeState { edges: self.edges_from(i, 0, winner), ..self.nodes[i] },
            ),
            ..self
        }
    }

    spec fn edges_from(self, i: int, n: int, winner: Color) -> Seq<Edge> {
        Seq::new(
            self.nodes[i].edges.len(),
            |j: int|
                credit(
                    self.nodes[i].edges[j],
                    self.hit_from(i, self.nodes[i].edges[j], n),
                    winner == self.nodes[i].to_move,
                ),
        )
    }
}

impl Tree {
    /// Plays the simulation out from where it stands and carries the result back
    /// up both the tree and the RAVE statistics.
    pub fn finish(&mut self)
        requires
            old(self)@.landed(),
            old(self)@.next_has_room(),
        ensures
            final(self)@ == old(self)@.finished(),
            final(self)@.at_rest(),
    {
        let ghost was = self@;
        proof {
            let size = was.board.size;
            assert(size * size * 3 + 40 <= 1123) by (nonlinear_arith)
                requires
                    0 <= size <= 19,
            ;
        }
        let winner: Color = mcts::playout(
            &mut self.board,
            &mut self.rng,
            &mut self.seq,
            &mut self.empties,
            &self.params,
        );
        self.playouts += 1;
        proof {
            assert(self@.nodes =~= was.nodes);
            assert forall|j: int| 0 <= j < self@.seq.len() implies (#[trigger] self@.seq[j]).0
                < 441 by {
                if j < was.seq.len() {
                    assert(self@.seq[j] == was.seq[j]);
                }
            }
            lemma_ready(was, self@);
            lemma_backed_up(was, self@, winner);
            lemma_finished(was);
        }
        self.backup(winner);
    }

    fn backup(&mut self, winner: Color)
        requires
            old(self)@.countable(),
            old(self)@.creditable(),
        ensures
            final(self)@ == old(self)@.counted(winner).credited(winner),
    {
        proof {
            lemma_counted(self@, winner);
        }
        self.count_visits(winner);
        self.spread_credit(winner);
    }

    /// Counts a visit for the root and for every node that the path leads to.
    fn count_visits(&mut self, winner: Color)
        requires
            old(self)@.countable(),
        ensures
            final(self)@ == old(self)@.counted(winner),
    {
        let ghost was = self@;
        assert(was.nodes[0].visits < u32::MAX);
        self.nodes[0].visits += 1;
        let mut k: usize = 0;
        while k < self.path.len()
            invariant
                k <= self.path.len(),
                was.countable(),
                was.path == self.path@,
                self@ == (TreeState { nodes: self@.nodes, ..was }),
                self@.nodes.len() == was.nodes.len(),
                forall|i: int|
                    0 <= i < was.nodes.len() ==> (#[trigger] self@.nodes[i]) == was.counted_node(
                        i,
                        k as int,
                        winner,
                    ),
            decreases self.path.len() - k,
        {
            let ghost before = self@;
            let step: Step = self.path[k];
            proof {
                assert(was.step_forward(k as int));
                assert(self@.nodes[step.node as int].edges == was.nodes[step.node as int].edges);
            }
            let mover: Color = self.nodes[step.node as usize].to_move;
            if let Some(c) = self.nodes[step.node as usize].edges[step.edge as usize].child {
                proof {
                    assert(was.reached_by(c as int, k as int));
                    assert(!was.reached_upto(c as int, k as int)) by {
                        if was.reached_upto(c as int, k as int) {
                            let m = choose|m: int| m < k && #[trigger] was.reached_by(c as int, m);
                            assert(was.path[m].node < was.path[k as int].node);
                        }
                    }
                    assert(self@.nodes[c as int].visits == was.nodes[c as int].visits);
                    assert(!was.won_upto(c as int, k as int, winner));
                }
                self.nodes[c as usize].visits += 1;
                if winner == mover {
                    self.nodes[c as usize].wins += 1;
                }
                proof {
                    assert forall|i: int| 0 <= i < was.nodes.len() implies (
                    #[trigger] self@.nodes[i]) == was.counted_node(i, k + 1, winner) by {
                        if i == c {
                            assert(was.reached_by(i, k as int));
                            assert(was.reached_upto(i, k + 1));
                            if was.won_upto(i, k + 1, winner) {
                                let m = choose|m: int|
                                    m < k + 1 && #[trigger] was.reached_by(i, m)
                                        && was.nodes[was.path[m].node as int].to_move == winner;
                                assert(m == k) by {
                                    if m < k {
                                        assert(was.reached_upto(i, k as int));
                                    }
                                }
                            }
                            assert(self@.nodes[i].edges == before.nodes[i].edges);
                        } else {
                            assert(self@.nodes[i] == before.nodes[i]);
                            if was.reached_upto(i, k + 1) {
                                let m = choose|m: int|
                                    m < k + 1 && #[trigger] was.reached_by(i, m);
                                assert(m < k);
                            }
                            if was.reached_upto(i, k as int) {
                                let m = choose|m: int| m < k && #[trigger] was.reached_by(i, m);
                                assert(m < k + 1);
                            }
                            if was.won_upto(i, k + 1, winner) {
                                let m = choose|m: int|
                                    m < k + 1 && #[trigger] was.reached_by(i, m)
                                        && was.nodes[was.path[m].node as int].to_move == winner;
                                assert(m < k);
                            }
                            if was.won_upto(i, k as int, winner) {
                                let m = choose|m: int|
                                    m < k && #[trigger] was.reached_by(i, m)
                                        && was.nodes[was.path[m].node as int].to_move == winner;
                                assert(m < k + 1);
                            }
                        }
                    }
                }
            }
            k += 1;
        }
        assert(self@.nodes =~= was.counted(winner).nodes);
    }

    /// RAVE: a move is credited at every node above the point where it was first
    /// played, which is the whole idea: "this move, some time soon".
    fn spread_credit(&mut self, winner: Color)
        requires
            old(self)@.creditable(),
        ensures
            final(self)@ == old(self)@.credited(winner),
    {
        let ghost was = self@;
        let mut black: Bits = Bits::new();
        let mut white: Bits = Bits::new();
        let mut filled: usize = self.seq.len();
        let mut k: usize = self.path.len();
        proof {
            assert forall|i: int| 0 <= i < was.nodes.len() implies (#[trigger] was.nodes[i]) == (
            NodeState { edges: was.edges_from(i, k as int, winner), ..was.nodes[i] }) by {
                assert(was.edges_from(i, k as int, winner) =~= was.nodes[i].edges);
            }
        }
        while k > 0
            invariant
                k <= was.path.len(),
                was.creditable(),
                was.path == self.path@,
                was.seq == self.seq@,
                self@ == (TreeState { nodes: self@.nodes, ..was }),
                self@.nodes.len() == was.nodes.len(),
                filled == if k < was.path.len() {
                    was.path[k as int].before as int
                } else {
                    was.seq.len() as int
                },
                filled <= was.seq.len(),
                forall|p: int| #[trigger]
                    black@.contains(p) <==> played_from(was.seq, p, Color::Black, filled as int),
                forall|p: int| #[trigger]
                    white@.contains(p) <==> played_from(was.seq, p, Color::White, filled as int),
                forall|i: int|
                    0 <= i < was.nodes.len() ==> (#[trigger] self@.nodes[i]) == (NodeState {
                        edges: was.edges_from(i, k as int, winner),
                        ..was.nodes[i]
                    }),
            decreases k,
        {
            k -= 1;
            let step: Step = self.path[k];
            let from: usize = step.before as usize;
            proof {
                assert(was.step_forward(k as int));
                if k + 1 < was.path.len() {
                    assert(was.path[k as int].before <= was.path[k + 1].before);
                }
            }
            while filled > from
                invariant
                    from <= filled <= was.seq.len(),
                    was.seq == self.seq@,
                    forall|j: int| 0 <= j < was.seq.len() ==> (#[trigger] was.seq[j]).0 < 441,
                    forall|p: int| #[trigger]
                        black@.contains(p) <==> played_from(
                            was.seq,
                            p,
                            Color::Black,
                            filled as int,
                        ),
                    forall|p: int| #[trigger]
                        white@.contains(p) <==> played_from(
                            was.seq,
                            p,
                            Color::White,
                            filled as int,
                        ),
                decreases filled,
            {
                filled -= 1;
                let (pt, colour) = self.seq[filled];
                proof {
                    lemma_played_from(was.seq, filled as int);
                    assert(was.seq[filled as int].0 < 441);
                }
                match colour {
                    Color::Black => {
                        black.set(pt as usize);
                    },
                    Color::White => {
                        white.set(pt as usize);
                    },
                }
            }
            let node: usize = step.node as usize;
            let mover: Color = self.nodes[node].to_move;
            let mine: Bits = match mover {
                Color::Black => black,
                Color::White => white,
            };
            let ghost before = self@;
            proof {
                let ni = node as int;
                assert(self@.nodes[ni].edges =~= was.nodes[ni].edges) by {
                    assert forall|j: int| 0 <= j < was.nodes[ni].edges.len() implies !was.hit_from(
                        ni,
                        #[trigger] was.nodes[ni].edges[j],
                        k + 1,
                    ) by {
                        let e = was.nodes[ni].edges[j];
                        if was.hit_from(ni, e, k + 1) {
                            let m = choose|m: int|
                                k + 1 <= m && #[trigger] was.left_by(ni, m) && came_up(
                                    e,
                                    was.nodes[ni].to_move,
                                    was.seq,
                                    was.path[m].before as int,
                                );
                            assert(was.path[k as int].node < was.path[m].node);
                        }
                    }
                }
                assert forall|j: int| 0 <= j < self@.nodes[ni].edges.len() implies {
                    let e = #[trigger] self@.nodes[ni].edges[j];
                    e.rave_wins <= e.rave_visits < u32::MAX && (e.mv matches Move::Play(pt) ==> pt
                        < 441)
                } by {
                    assert(self@.nodes[ni].edges[j] == was.nodes[ni].edges[j]);
                }
            }
            self.credit_node(node, &mine, winner == mover);
            proof {
                let ni = node as int;
                assert forall|i: int| 0 <= i < was.nodes.len() implies (
                #[trigger] self@.nodes[i]) == (NodeState {
                    edges: was.edges_from(i, k as int, winner),
                    ..was.nodes[i]
                }) by {
                    if i == ni {
                        assert(was.left_by(ni, k as int));
                        assert forall|j: int|
                            0 <= j < was.nodes[ni].edges.len() implies self@.nodes[ni].edges[j]
                            == #[trigger] was.edges_from(ni, k as int, winner)[j] by {
                            let e = was.nodes[ni].edges[j];
                            let hit = e.mv is Play && mine@.contains(e.mv->Play_0 as int);
                            assert(hit == was.hit_from(ni, e, k as int)) by {
                                if hit {
                                    assert(came_up(
                                        e,
                                        was.nodes[ni].to_move,
                                        was.seq,
                                        was.path[k as int].before as int,
                                    ));
                                }
                                if was.hit_from(ni, e, k as int) {
                                    let m = choose|m: int|
                                        k <= m && #[trigger] was.left_by(ni, m) && came_up(
                                            e,
                                            was.nodes[ni].to_move,
                                            was.seq,
                                            was.path[m].before as int,
                                        );
                                    assert(m == k) by {
                                        if k < m {
                                            assert(was.path[k as int].node < was.path[m].node);
                                        }
                                    }
                                }
                            }
                        }
                        assert(self@.nodes[ni].edges =~= was.edges_from(ni, k as int, winner));
                    } else {
                        assert(self@.nodes[i] == before.nodes[i]);
                        assert(was.edges_from(i, k as int, winner) =~= was.edges_from(
                            i,
                            k + 1,
                            winner,
                        )) by {
                            assert forall|j: int|
                                0 <= j < was.nodes[i].edges.len() implies was.hit_from(
                                i,
                                #[trigger] was.nodes[i].edges[j],
                                k as int,
                            ) == was.hit_from(i, was.nodes[i].edges[j], k + 1) by {
                                lemma_hit_elsewhere(was, i, was.nodes[i].edges[j], k as int);
                            }
                        }
                    }
                }
            }
        }
        assert(self@.nodes =~= was.credited(winner).nodes);
    }

    /// Credits those edges of a node whose points are in `mine`.
    fn credit_node(&mut self, node: usize, mine: &Bits, won: bool)
        requires
            node < old(self)@.nodes.len(),
            forall|j: int|
                0 <= j < old(self)@.nodes[node as int].edges.len() ==> {
                    let e = #[trigger] old(self)@.nodes[node as int].edges[j];
                    e.rave_wins <= e.rave_visits < u32::MAX && (e.mv matches Move::Play(pt) ==> pt
                        < 441)
                },
        ensures
            final(self)@ == (TreeState { nodes: final(self)@.nodes, ..old(self)@ }),
            final(self)@.nodes.len() == old(self)@.nodes.len(),
            forall|i: int|
                0 <= i < old(self)@.nodes.len() && i != node ==> (#[trigger] final(self)@.nodes[i])
                    == old(self)@.nodes[i],
            final(self)@.nodes[node as int] == (NodeState {
                edges: final(self)@.nodes[node as int].edges,
                ..old(self)@.nodes[node as int]
            }),
            final(self)@.nodes[node as int].edges.len() == old(
                self,
            )@.nodes[node as int].edges.len(),
            forall|j: int|
                0 <= j < old(self)@.nodes[node as int].edges.len() ==> {
                    let e = old(self)@.nodes[node as int].edges[j];
                    (#[trigger] final(self)@.nodes[node as int].edges[j]) == credit(
                        e,
                        e.mv is Play && mine@.contains(e.mv->Play_0 as int),
                        won,
                    )
                },
    {
        let ghost was = self@;
        let ghost ni = node as int;
        let n: usize = self.nodes[node].edges.len();
        let mut j: usize = 0;
        while j < n
            invariant
                j <= n,
                node < was.nodes.len(),
                ni == node,
                n == was.nodes[ni].edges.len(),
                self@ == (TreeState { nodes: self@.nodes, ..was }),
                self@.nodes.len() == was.nodes.len(),
                forall|i: int|
                    0 <= i < was.nodes.len() && i != node ==> (#[trigger] self@.nodes[i])
                        == was.nodes[i],
                self@.nodes[ni] == (NodeState { edges: self@.nodes[ni].edges, ..was.nodes[ni] }),
                self@.nodes[ni].edges.len() == n,
                forall|m: int|
                    0 <= m < n ==> {
                        let e = #[trigger] was.nodes[ni].edges[m];
                        e.rave_wins <= e.rave_visits < u32::MAX && (e.mv matches Move::Play(pt)
                            ==> pt < 441)
                    },
                forall|m: int|
                    0 <= m < n ==> {
                        let e = was.nodes[ni].edges[m];
                        (#[trigger] self@.nodes[ni].edges[m]) == if m < j {
                            credit(
                                e,
                                e.mv is Play && mine@.contains(e.mv->Play_0 as int),
                                won,
                            )
                        } else {
                            e
                        }
                    },
            decreases n - j,
        {
            let ghost before = self@;
            assert(self@.nodes[ni].edges[j as int] == was.nodes[ni].edges[j as int]);
            if let Move::Play(pt) = self.nodes[node].edges[j].mv {
                if mine.get(pt as usize) {
                    self.nodes[node].edges[j].rave_visits += 1;
                    if won {
                        self.nodes[node].edges[j].rave_wins += 1;
                    }
                }
            }
            proof {
                assert forall|m: int| 0 <= m < n implies {
                    let e = was.nodes[ni].edges[m];
                    (#[trigger] self@.nodes[ni].edges[m]) == if m < j + 1 {
                        credit(e, e.mv is Play && mine@.contains(e.mv->Play_0 as int), won)
                    } else {
                        e
                    }
                } by {
                    if m != j {
                        assert(self@.nodes[ni].edges[m] == before.nodes[ni].edges[m]);
                    }
                }
                assert forall|i: int| 0 <= i < was.nodes.len() && i != node implies (
                #[trigger] self@.nodes[i]) == was.nodes[i] by {
                    assert(self@.nodes[i] == before.nodes[i]);
                }
            }
            j += 1;
        }
    }
}

/// Has `c` played on `p` from the stone number `from` on?
spec fn played_from(moves: Seq<(Point, Color)>, p: int, c: Color, from: int) -> bool {
    exists|j: int| from <= j < moves.len() && #[trigger] moves[j] == (p as Point, c) && 0 <= p < 441
}

proof fn lemma_played_from(moves: Seq<(Point, Color)>, from: int)
    requires
        0 <= from < moves.len(),
        moves[from].0 < 441,
    ensures
        forall|p: int, c: Color| #[trigger]
            played_from(moves, p, c, from) <==> (p == moves[from].0 && c == moves[from].1)
                || played_from(moves, p, c, from + 1),
{
    assert forall|p: int, c: Color| #[trigger]
        played_from(moves, p, c, from) <==> (p == moves[from].0 && c == moves[from].1)
            || played_from(moves, p, c, from + 1) by {
        if played_from(moves, p, c, from) {
            let j = choose|j: int|
                from <= j < moves.len() && #[trigger] moves[j] == (p as Point, c) && 0 <= p < 441;
            if j > from {
                assert(from + 1 <= j < moves.len() && moves[j] == (p as Point, c));
            }
        }
        if played_from(moves, p, c, from + 1) {
            let j = choose|j: int|
                from + 1 <= j < moves.len() && #[trigger] moves[j] == (p as Point, c) && 0 <= p
                    < 441;
            assert(from <= j < moves.len() && moves[j] == (p as Point, c));
        }
        if p == moves[from].0 && c == moves[from].1 {
            assert(moves[from] == (p as Point, c));
        }
    }
}

proof fn lemma_hit_elsewhere(t: TreeState, i: int, e: Edge, k: int)
    requires
        0 <= k < t.path.len(),
        t.path[k].node != i,
    ensures
        t.hit_from(i, e, k) == t.hit_from(i, e, k + 1),
{
    if t.hit_from(i, e, k) {
        let m = choose|m: int|
            k <= m && #[trigger] t.left_by(i, m) && came_up(
                e,
                t.nodes[i].to_move,
                t.seq,
                t.path[m].before as int,
            );
        assert(k + 1 <= m);
        assert(t.left_by(i, m));
    }
    if t.hit_from(i, e, k + 1) {
        let m = choose|m: int|
            k + 1 <= m && #[trigger] t.left_by(i, m) && came_up(
                e,
                t.nodes[i].to_move,
                t.seq,
                t.path[m].before as int,
            );
        assert(k <= m && t.left_by(i, m));
    }
}

proof fn lemma_ordered(t: TreeState, u: TreeState)
    requires
        t.landed(),
        u.nodes == t.nodes,
        u.path == t.path,
        u.seq.len() >= t.seq.len(),
    ensures
        u.ordered(),
{
    assert forall|k: int| 0 <= k < u.path.len() implies #[trigger] u.step_forward(k) by {
        assert(t.step_ok(k));
        let i = t.path[k].node as int;
        assert(t.node_ok(i));
        assert(t.edge_ok(i, t.path[k].edge as int));
        assert(u.edge_taken(k) == t.edge_taken(k));
    }
    assert forall|k: int, m: int| 0 <= k < m < u.path.len() implies {
        &&& (#[trigger] u.path[k]).node < (#[trigger] u.path[m]).node
        &&& u.edge_taken(k).child->0 <= u.path[m].node
        &&& u.path[k].before <= u.path[m].before
    } by {
        lemma_path_increases(t, k, m);
        assert(u.edge_taken(k) == t.edge_taken(k));
    }
}

/// What the backup writes is what `node_after` says.
proof fn lemma_node_after(t: TreeState, u: TreeState, i: int, winner: Color)
    requires
        u.nodes == t.nodes,
        u.path == t.path,
        0 <= i < t.nodes.len(),
    ensures
        ({
            let n = u.nodes[i];
            t.node_after(i, u.seq, winner) == NodeState {
                to_move: n.to_move,
                visits: n.visits + if i == 0 || u.reached_upto(i, u.path.len() as int) {
                    1int
                } else {
                    0
                },
                wins: n.wins + if u.won_upto(i, u.path.len() as int, winner) {
                    1int
                } else {
                    0
                },
                edges: u.edges_from(i, 0, winner),
            }
        }),
{
    let n = u.nodes[i];
    let len = u.path.len() as int;
    assert forall|k: int| t.reached_by(i, k) == #[trigger] u.reached_by(i, k) by {}
    assert forall|k: int| t.left_by(i, k) == #[trigger] u.left_by(i, k) by {}
    if exists|k: int| t.reached_by(i, k) {
        let k = choose|k: int| t.reached_by(i, k);
        assert(k < len && u.reached_by(i, k));
    }
    if u.reached_upto(i, len) {
        let k = choose|k: int| k < len && #[trigger] u.reached_by(i, k);
        assert(t.reached_by(i, k));
    }
    if exists|k: int| #[trigger]
        t.reached_by(i, k) && t.nodes[t.path[k].node as int].to_move == winner {
        let k = choose|k: int| #[trigger]
            t.reached_by(i, k) && t.nodes[t.path[k].node as int].to_move == winner;
        assert(k < len && u.reached_by(i, k));
    }
    if u.won_upto(i, len, winner) {
        let k = choose|k: int|
            k < len && #[trigger] u.reached_by(i, k) && u.nodes[u.path[k].node as int].to_move
                == winner;
        assert(t.reached_by(i, k));
    }
    let after = t.node_after(i, u.seq, winner);
    assert forall|j: int| 0 <= j < n.edges.len() implies after.edges[j] == #[trigger] u.edges_from(
        i,
        0,
        winner,
    )[j] by {
        let e = n.edges[j];
        if exists|k: int| #[trigger]
            t.left_by(i, k) && came_up(e, n.to_move, u.seq, t.path[k].before as int) {
            let k = choose|k: int| #[trigger]
                t.left_by(i, k) && came_up(e, n.to_move, u.seq, t.path[k].before as int);
            assert(0 <= k && u.left_by(i, k));
            assert(u.hit_from(i, e, 0));
        }
        if u.hit_from(i, e, 0) {
            let k = choose|k: int|
                0 <= k && #[trigger] u.left_by(i, k) && came_up(
                    e,
                    u.nodes[i].to_move,
                    u.seq,
                    u.path[k].before as int,
                );
            assert(t.left_by(i, k));
        }
    }
    assert(after.edges =~= u.edges_from(i, 0, winner));
}

/// Counting visits touches neither edges nor players.
proof fn lemma_counted(t: TreeState, winner: Color)
    requires
        t.creditable(),
    ensures
        t.counted(winner).creditable(),
{
    let c = t.counted(winner);
    let n = t.path.len() as int;
    assert forall|k: int| 0 <= k < c.path.len() implies #[trigger] c.step_forward(k) by {
        assert(t.step_forward(k));
        assert(c.edge_taken(k) == t.edge_taken(k));
    }
    assert forall|k: int, m: int| 0 <= k < m < c.path.len() implies {
        &&& (#[trigger] c.path[k]).node < (#[trigger] c.path[m]).node
        &&& c.edge_taken(k).child->0 <= c.path[m].node
        &&& c.path[k].before <= c.path[m].before
    } by {
        assert(t.step_forward(k));
        assert(t.path[k].node < t.path[m].node);
        assert(c.edge_taken(k) == t.edge_taken(k));
    }
}

/// A simulation that has been played out can be backed up.
proof fn lemma_ready(t: TreeState, u: TreeState)
    requires
        t.landed(),
        t.next_has_room(),
        u.nodes == t.nodes,
        u.path == t.path,
        u.seq.len() >= t.seq.len(),
        forall|j: int| 0 <= j < u.seq.len() ==> (#[trigger] u.seq[j]).0 < 441,
    ensures
        u.countable(),
        u.creditable(),
{
    lemma_ordered(t, u);
    assert forall|i: int| 0 <= i < u.nodes.len() implies (#[trigger] u.nodes[i]).wins
        <= u.nodes[i].visits < u32::MAX by {
        assert(t.node_ok(i));
    }
    assert forall|i: int, j: int|
        0 <= i < u.nodes.len() && 0 <= j < u.nodes[i].edges.len() implies {
        let e = #[trigger] u.nodes[i].edges[j];
        e.rave_wins <= e.rave_visits < u32::MAX && (e.mv matches Move::Play(pt) ==> pt < 441)
    } by {
        assert(t.node_ok(i));
        assert(t.edge_ok(i, j));
    }
}

/// Counting and crediting a playout is what `finished` says.
proof fn lemma_backed_up(t: TreeState, u: TreeState, winner: Color)
    requires
        ({
            let end = Playout::from(t.board, t.rng, t.seq).finished(t.params.atari_answer_percent);
            &&& winner == mcts::winner_of(end.pos, t.params.komi)
            &&& u == TreeState {
                rng: end.rng,
                playouts: t.playouts + 1,
                seq: end.moves,
                board: end.pos,
                ..t
            }
        }),
    ensures
        u.counted(winner).credited(winner) == t.finished(),
{
    let c = u.counted(winner);
    let b = c.credited(winner);
    let f = t.finished();
    assert forall|i: int| 0 <= i < t.nodes.len() implies #[trigger] b.nodes[i] == f.nodes[i] by {
        lemma_node_after(t, u, i, winner);
        assert forall|j: int| 0 <= j < u.nodes[i].edges.len() implies c.edges_from(
            i,
            0,
            winner,
        )[j] == #[trigger] u.edges_from(i, 0, winner)[j] by {
            let e = u.nodes[i].edges[j];
            assert forall|k: int| c.left_by(i, k) == #[trigger] u.left_by(i, k) by {}
            if u.hit_from(i, e, 0) {
                let k = choose|k: int|
                    0 <= k && #[trigger] u.left_by(i, k) && came_up(
                        e,
                        u.nodes[i].to_move,
                        u.seq,
                        u.path[k].before as int,
                    );
                assert(c.left_by(i, k));
            }
            if c.hit_from(i, e, 0) {
                let k = choose|k: int|
                    0 <= k && #[trigger] c.left_by(i, k) && came_up(
                        e,
                        c.nodes[i].to_move,
                        c.seq,
                        c.path[k].before as int,
                    );
                assert(u.left_by(i, k));
            }
        }
        assert(c.edges_from(i, 0, winner) =~= u.edges_from(i, 0, winner));
    }
    assert(b.nodes =~= f.nodes);
}

/// A finished simulation leaves a sound tree.
proof fn lemma_finished(t: TreeState)
    requires
        t.landed(),
        t.next_has_room(),
    ensures
        t.finished().at_rest(),
{
    let f = t.finished();
    assert forall|i: int| 0 <= i < f.nodes.len() implies #[trigger] f.node_ok(i) by {
        assert(t.node_ok(i));
        let n = f.nodes[i];
        if exists|k: int| #[trigger]
            t.reached_by(i, k) && t.nodes[t.path[k].node as int].to_move == mcts::winner_of(
                f.board,
                t.params.komi,
            ) {
            let k = choose|k: int| #[trigger]
                t.reached_by(i, k) && t.nodes[t.path[k].node as int].to_move == mcts::winner_of(
                    f.board,
                    t.params.komi,
                );
            assert(t.reached_by(i, k));
        }
        assert forall|j: int| 0 <= j < n.edges.len() implies #[trigger] f.edge_ok(i, j) by {
            assert(t.edge_ok(i, j));
        }
    }
    assert forall|j: int| 0 <= j < f.nodes[0].edges.len() implies #[trigger] f.root_edge_ok(j) by {
        assert(t.root_edge_ok(j));
    }
}

/// How a root move fared: playouts that went through it, and those won by whoever
/// made it.
#[derive(Clone, Copy, PartialEq, Eq, Debug, Structural)]
pub struct RootStat {
    pub mv: Move,
    pub visits: u64,
    pub wins: u64,
}

/// A root move and the line the search expects to follow it.
#[derive(Debug)]
pub struct Line {
    pub mv: Move,
    pub pv: Vec<Move>,
}

/// What a tree has to say about its root.
#[derive(Debug)]
pub struct Report {
    pub stats: Vec<RootStat>,
    pub playouts: u64,
    pub lines: Vec<Line>,
}

/// What a line says.
pub struct LineState {
    pub mv: Move,
    pub pv: Seq<Move>,
}

impl View for Line {
    type V = LineState;

    open spec fn view(&self) -> LineState {
        LineState { mv: self.mv, pv: self.pv@ }
    }
}

/// What some lines say.
pub open spec fn line_views(lines: Seq<Line>) -> Seq<LineState> {
    Seq::new(lines.len(), |i: int| lines[i]@)
}

impl TreeState {
    /// How the root's edge `j` fared.
    pub open spec fn root_stat(self, j: int) -> RootStat {
        let e = self.nodes[0].edges[j];
        match e.child {
            Some(c) => RootStat {
                mv: e.mv,
                visits: self.nodes[c as int].visits as u64,
                wins: self.nodes[c as int].wins as u64,
            },
            None => RootStat { mv: e.mv, visits: 0, wins: 0 },
        }
    }

    /// How all the root's edges fared.
    pub open spec fn root_stats(self) -> Seq<RootStat> {
        Seq::new(self.nodes[0].edges.len(), |j: int| self.root_stat(j))
    }

    /// Among the first `n` edges of the node `i`, the last of those that lead to the
    /// node with the most visits.
    pub open spec fn busiest(self, i: int, n: nat) -> Option<int>
        decreases n,
    {
        if n == 0 {
            None
        } else {
            let before = self.busiest(i, (n - 1) as nat);
            match (before, self.nodes[i].edges[n - 1].child) {
                (_, None) => before,
                (None, Some(_)) => Some(n - 1),
                (Some(b), Some(c)) => if self.nodes[c as int].visits
                    >= self.nodes[self.nodes[i].edges[b].child->0 as int].visits {
                    Some(n - 1)
                } else {
                    before
                },
            }
        }
    }

    /// The line `pv` carried on from the node `at`, the position being `pos`: by the
    /// most visited edge each time, up to eight moves, as long as it has been
    /// visited eight times and is legal.
    pub open spec fn carried_on(self, pos: Position, at: Option<u32>, pv: Seq<Move>) -> Seq<Move>
        decreases 8 - pv.len(),
    {
        if pv.len() >= 8 || at is None {
            pv
        } else {
            let i = at->0 as int;
            match self.busiest(i, self.nodes[i].edges.len()) {
                None => pv,
                Some(j) => {
                    let e = self.nodes[i].edges[j];
                    if self.nodes[e.child->0 as int].visits < 8 {
                        pv
                    } else {
                        match pos.outcome(e.mv) {
                            Err(_) => pv,
                            Ok(next) => self.carried_on(next, e.child, pv.push(e.mv)),
                        }
                    }
                },
            }
        }
    }

    /// Is `j` the first edge of the root with the move `mv`?
    pub open spec fn first_edge(self, mv: Move, j: int) -> bool {
        &&& 0 <= j < self.nodes[0].edges.len()
        &&& self.nodes[0].edges[j].mv == mv
        &&& forall|m: int| 0 <= m < j ==> (#[trigger] self.nodes[0].edges[m]).mv != mv
    }

    /// The line that the search expects after the root move `first`.
    pub open spec fn variation(self, first: Move) -> Seq<Move> {
        if exists|j: int| self.first_edge(first, j) {
            let j = choose|j: int| self.first_edge(first, j);
            let pos = match self.root.outcome(first) {
                Ok(next) => next,
                Err(_) => self.root,
            };
            self.carried_on(pos, self.nodes[0].edges[j].child, seq![first])
        } else {
            seq![first]
        }
    }

    /// The lines after those of the first `n` root moves that have been visited.
    pub open spec fn lines_upto(self, n: nat) -> Seq<LineState>
        decreases n,
    {
        if n == 0 {
            Seq::empty()
        } else {
            let before = self.lines_upto((n - 1) as nat);
            let s = self.root_stat(n - 1);
            if s.visits > 0 {
                before.push(LineState { mv: s.mv, pv: self.variation(s.mv) })
            } else {
                before
            }
        }
    }
}

/// The busiest edge is one of the edges, and leads somewhere.
proof fn lemma_busiest(t: TreeState, i: int, n: nat)
    ensures
        t.busiest(i, n) matches Some(j) ==> 0 <= j < n && t.nodes[i].edges[j].child is Some,
    decreases n,
{
    if n > 0 {
        lemma_busiest(t, i, (n - 1) as nat);
    }
}

impl Tree {
    /// The edge of a node that leads to the most visited child.
    fn busiest_edge(&self, node: usize) -> (r: Option<usize>)
        requires
            self@.sound(),
            node < self@.nodes.len(),
        ensures
            r is None <==> self@.busiest(
                node as int,
                self@.nodes[node as int].edges.len(),
            ) is None,
            r matches Some(j) ==> {
                &&& self@.busiest(node as int, self@.nodes[node as int].edges.len()) == Some(
                    j as int,
                )
                &&& j < self@.nodes[node as int].edges.len()
                &&& self@.nodes[node as int].edges[j as int].child is Some
            },
    {
        let ghost i = node as int;
        let mut best: Option<usize> = None;
        let mut most: u32 = 0;
        let mut k: usize = 0;
        while k < self.nodes[node].edges.len()
            invariant
                k <= self@.nodes[i].edges.len(),
                i == node,
                node < self@.nodes.len(),
                self@.sound(),
                best is None <==> self@.busiest(i, k as nat) is None,
                best matches Some(j) ==> {
                    &&& self@.busiest(i, k as nat) == Some(j as int)
                    &&& j < k
                    &&& self@.nodes[i].edges[j as int].child matches Some(c) && c
                        < self@.nodes.len() && most == self@.nodes[c as int].visits
                },
            decreases self@.nodes[i].edges.len() - k,
        {
            proof {
                assert(self@.node_ok(i));
                assert(self@.edge_ok(i, k as int));
            }
            if let Some(c) = self.nodes[node].edges[k].child {
                let visits: u32 = self.nodes[c as usize].visits;
                let better: bool = match best {
                    None => true,
                    Some(_) => visits >= most,
                };
                if better {
                    best = Some(k);
                    most = visits;
                }
            }
            k += 1;
        }
        best
    }

    /// The line that the search expects after the root move `first`.
    pub fn principal_variation(&self, first: Move) -> (pv: Vec<Move>)
        requires
            self@.at_rest(),
            first matches Move::Play(pt) ==> pt < 441,
        ensures
            pv@ == self@.variation(first),
    {
        let ghost t = self@;
        let mut pv: Vec<Move> = Vec::new();
        pv.push(first);
        assert(pv@ =~= seq![first]);
        let mut j: usize = 0;
        while j < self.nodes[0].edges.len() && self.nodes[0].edges[j].mv != first
            invariant
                t == self@,
                t.at_rest(),
                j <= t.nodes[0].edges.len(),
                forall|m: int| 0 <= m < j ==> (#[trigger] t.nodes[0].edges[m]).mv != first,
            decreases t.nodes[0].edges.len() - j,
        {
            j += 1;
        }
        if j == self.nodes[0].edges.len() {
            assert forall|m: int| !t.first_edge(first, m) by {}
            return pv;
        }
        proof {
            assert(t.first_edge(first, j as int));
            let m = choose|m: int| t.first_edge(first, m);
            assert(m == j) by {
                if m < j {
                    assert(t.nodes[0].edges[m].mv != first);
                }
                if j < m {
                    assert(t.nodes[0].edges[j as int].mv != first);
                }
            }
            assert(t.node_ok(0));
            assert(t.edge_ok(0, j as int));
            mcts::lemma_load(t.root, first);
        }
        let mut at: Option<u32> = self.nodes[0].edges[j].child;
        let mut probe: Board = self.root;
        let _ = probe.play(first);
        while pv.len() < 8 && at.is_some()
            invariant
                t == self@,
                t.at_rest(),
                1 <= pv.len() <= 8,
                at matches Some(c) ==> c < t.nodes.len(),
                probe@.wf(),
                mcts::load(probe@) <= mcts::load(t.root) + pv.len(),
                probe@.passes <= t.root.passes + pv.len(),
                t.variation(first) == t.carried_on(probe@, at, pv@),
            ensures
                pv@ == t.variation(first),
            decreases 8 - pv.len(),
        {
            let node: usize = at.unwrap() as usize;
            proof {
                lemma_busiest(t, node as int, t.nodes[node as int].edges.len());
            }
            let k: usize = match self.busiest_edge(node) {
                None => {
                    break;
                },
                Some(k) => k,
            };
            let edge: Edge = self.nodes[node].edges[k];
            proof {
                assert(t.node_ok(node as int));
                assert(t.edge_ok(node as int, k as int));
                probe.lemma_ranges();
                mcts::lemma_load(probe@, edge.mv);
            }
            let child: usize = edge.child.unwrap() as usize;
            if self.nodes[child].visits < 8 {
                break;
            }
            if probe.play(edge.mv).is_err() {
                break;
            }
            pv.push(edge.mv);
            at = edge.child;
        }
        pv
    }

    /// What the tree has found out about the moves at its root.
    pub fn report(&self) -> (r: Report)
        requires
            self@.at_rest(),
        ensures
            r.stats@ == self@.root_stats(),
            r.playouts == self@.playouts,
            line_views(r.lines@) == self@.lines_upto(self@.nodes[0].edges.len()),
            r.stats@.len() <= 362,
            forall|j: int|
                0 <= j < r.stats@.len() ==> {
                    let s = #[trigger] r.stats@[j];
                    &&& s.wins <= s.visits <= r.playouts
                    &&& s.mv == Move::Pass || (s.mv matches Move::Play(pt) && self@.root.illegal(
                        pt,
                        self@.root.to_move,
                    ) is None)
                },
    {
        let ghost t = self@;
        let mut stats: Vec<RootStat> = Vec::new();
        let mut lines: Vec<Line> = Vec::new();
        let mut j: usize = 0;
        assert(line_views(lines@) =~= t.lines_upto(0));
        while j < self.nodes[0].edges.len()
            invariant
                t == self@,
                t.at_rest(),
                j <= t.nodes[0].edges.len(),
                stats@ =~= t.root_stats().take(j as int),
                line_views(lines@) == t.lines_upto(j as nat),
                forall|m: int|
                    0 <= m < stats@.len() ==> {
                        let s = #[trigger] stats@[m];
                        &&& s.wins <= s.visits <= t.playouts
                        &&& s.mv == Move::Pass || (s.mv matches Move::Play(pt) && t.root.illegal(
                            pt,
                            t.root.to_move,
                        ) is None)
                    },
            decreases t.nodes[0].edges.len() - j,
        {
            let edge: Edge = self.nodes[0].edges[j];
            proof {
                assert(t.node_ok(0));
                assert(t.edge_ok(0, j as int));
                assert(t.root_edge_ok(j as int));
            }
            let stat: RootStat = match edge.child {
                Some(c) => {
                    assert(t.node_ok(c as int));
                    RootStat {
                        mv: edge.mv,
                        visits: self.nodes[c as usize].visits as u64,
                        wins: self.nodes[c as usize].wins as u64,
                    }
                },
                None => RootStat { mv: edge.mv, visits: 0, wins: 0 },
            };
            assert(stat == t.root_stat(j as int));
            stats.push(stat);
            if stat.visits > 0 {
                let ghost before = line_views(lines@);
                let line = Line { mv: edge.mv, pv: self.principal_variation(edge.mv) };
                let ghost shown = line@;
                lines.push(line);
                assert(line_views(lines@) =~= before.push(shown));
            }
            j += 1;
        }
        assert(t.node_ok(0));
        Report { stats, playouts: self.playouts, lines }
    }
}

/// Among the edges of a node, the one that a line goes on by leads to a child, and no
/// other edge leads to one that has been visited more; of those visited as often it is
/// the last. There is no such edge only where no edge leads to a child.
pub proof fn law_busiest_edge_is_the_most_visited(t: TreeState, i: int, n: nat)
    requires
        n <= t.nodes[i].edges.len(),
    ensures
        t.busiest(i, n) is None <==> forall|k: int|
            0 <= k < n ==> (#[trigger] t.nodes[i].edges[k]).child is None,
        t.busiest(i, n) matches Some(j) ==> {
            &&& 0 <= j < n
            &&& t.nodes[i].edges[j].child is Some
            &&& forall|k: int|
                0 <= k < n && (#[trigger] t.nodes[i].edges[k]).child is Some ==> {
                    let mine = t.nodes[t.nodes[i].edges[j].child->0 as int].visits;
                    let theirs = t.nodes[t.nodes[i].edges[k].child->0 as int].visits;
                    &&& theirs <= mine
                    &&& k > j ==> theirs < mine
                }
        },
    decreases n,
{
    if n > 0 {
        law_busiest_edge_is_the_most_visited(t, i, (n - 1) as nat);
        assert(t.nodes[i].edges[n - 1].child is Some ==> t.busiest(i, n) is Some);
    }
}

/// Does the edge `j` of the node `i` lead to a child that has been visited at least
/// eight times, and no less than the child of any other edge?
pub open spec fn well_trodden(t: TreeState, i: int, j: int) -> bool {
    &&& 0 <= j < t.nodes[i].edges.len()
    &&& t.nodes[i].edges[j].child is Some
    &&& t.nodes[t.nodes[i].edges[j].child->0 as int].visits >= 8
    &&& forall|k: int|
        0 <= k < t.nodes[i].edges.len() && (#[trigger] t.nodes[i].edges[k]).child is Some
            ==> t.nodes[t.nodes[i].edges[k].child->0 as int].visits
            <= t.nodes[t.nodes[i].edges[j].child->0 as int].visits
}

/// Do the moves `rest`, at most `most` of them and played one after the other from the
/// position `pos` at the node `at`, keep to the most visited edges, each move legal
/// where it is played; and do they stop only where there is no way on?
pub open spec fn keeps_to_the_trodden(
    t: TreeState,
    pos: Position,
    at: Option<u32>,
    rest: Seq<Move>,
    most: int,
) -> bool
    decreases rest.len(),
{
    if rest.len() > 0 {
        most > 0 && at is Some && exists|j: int|
            {
                &&& #[trigger] well_trodden(t, at->0 as int, j)
                &&& t.nodes[at->0 as int].edges[j].mv == rest[0]
                &&& pos.outcome(rest[0]) is Ok
                &&& keeps_to_the_trodden(
                    t,
                    pos.outcome(rest[0])->Ok_0,
                    t.nodes[at->0 as int].edges[j].child,
                    rest.skip(1),
                    most - 1,
                )
            }
    } else {
        most > 0 && at is Some ==> (forall|j: int| !#[trigger] well_trodden(t, at->0 as int, j))
            || (exists|j: int|
            #[trigger] well_trodden(t, at->0 as int, j) && pos.outcome(
                t.nodes[at->0 as int].edges[j].mv,
            ) is Err)
    }
}

proof fn lemma_carried_on(t: TreeState, pos: Position, at: Option<u32>, pv: Seq<Move>)
    ensures
        pv.len() <= t.carried_on(pos, at, pv).len(),
        pv.len() <= 8 ==> t.carried_on(pos, at, pv).len() <= 8,
        t.carried_on(pos, at, pv).take(pv.len() as int) == pv,
        pv.len() <= 8 ==> keeps_to_the_trodden(
            t,
            pos,
            at,
            t.carried_on(pos, at, pv).skip(pv.len() as int),
            8 - pv.len(),
        ),
    decreases 8 - pv.len(),
{
    let whole = t.carried_on(pos, at, pv);
    let rest = whole.skip(pv.len() as int);
    assert(whole.take(pv.len() as int) =~= pv && rest.len() == 0 || whole != pv);
    if pv.len() < 8 && at is Some {
        let i = at->0 as int;
        let n = t.nodes[i].edges.len();
        law_busiest_edge_is_the_most_visited(t, i, n);
        if let Some(j) = t.busiest(i, n) {
            let e = t.nodes[i].edges[j];
            if t.nodes[e.child->0 as int].visits >= 8 {
                assert(well_trodden(t, i, j));
                if let Ok(next) = pos.outcome(e.mv) {
                    lemma_carried_on(t, next, e.child, pv.push(e.mv));
                    assert(whole == t.carried_on(next, e.child, pv.push(e.mv)));
                    assert(whole.take(pv.len() as int) =~= whole.take(pv.len() as int + 1).take(
                        pv.len() as int,
                    ));
                    assert(pv.push(e.mv).take(pv.len() as int) =~= pv);
                    assert(whole[pv.len() as int] == whole.take(
                        pv.len() as int + 1,
                    )[pv.len() as int]);
                    assert(rest[0] == e.mv);
                    assert(rest.skip(1) =~= whole.skip(pv.len() as int + 1));
                }
            } else {
                assert forall|m: int| !well_trodden(t, i, m) by {
                    if well_trodden(t, i, m) {
                        assert(t.nodes[i].edges[m].child is Some);
                    }
                }
            }
        } else {
            assert forall|m: int| !well_trodden(t, i, m) by {
                if well_trodden(t, i, m) {
                    assert(t.nodes[i].edges[m].child is Some);
                }
            }
        }
    }
}

/// The line shown after a root move starts with it and is at most eight moves long.
/// From there on each move is one that may be played and that the search has looked at
/// the most, and at least eight times; and the line goes on as long as there is such a
/// move, if the rules allow it.
pub proof fn law_lines_keep_to_the_most_visited(t: TreeState, j: int)
    requires
        0 <= j < t.nodes[0].edges.len(),
        t.root.outcome(t.nodes[0].edges[j].mv) is Ok,
        forall|m: int|
            0 <= m < t.nodes[0].edges.len() && m != j ==> (#[trigger] t.nodes[0].edges[m]).mv
                != t.nodes[0].edges[j].mv,
    ensures
        ({
            let first = t.nodes[0].edges[j].mv;
            let at = t.nodes[0].edges[j].child;
            let pos = t.root.outcome(first)->Ok_0;
            let pv = t.variation(first);
            &&& 1 <= pv.len() <= 8
            &&& pv[0] == first
            &&& keeps_to_the_trodden(t, pos, at, pv.skip(1), 7)
        }),
{
    let first = t.nodes[0].edges[j].mv;
    assert(t.first_edge(first, j));
    let k = choose|k: int| t.first_edge(first, k);
    assert(t.nodes[0].edges[k].mv == first);
    assert(k == j);
    let pos = t.root.outcome(first)->Ok_0;
    let at = t.nodes[0].edges[j].child;
    lemma_carried_on(t, pos, at, seq![first]);
    let pv = t.variation(first);
    assert(pv.take(1)[0] == pv[0]);
}

pub proof fn lemma_kept(s: Seq<Point>, keep: spec_fn(Point) -> bool)
    requires
        s.no_duplicates(),
    ensures
        s.filter(keep).no_duplicates(),
        forall|pt: Point| #[trigger] s.filter(keep).contains(pt) <==> s.contains(pt) && keep(pt),
    decreases s.len(),
{
    reveal(Seq::filter);
    if s.len() > 0 {
        let less = s.drop_last();
        let last = s.last();
        lemma_kept(less, keep);
        let rest = less.filter(keep);
        let kept = s.filter(keep);
        assert forall|pt: Point| s.contains(pt) <==> less.contains(pt) || pt == last by {
            if s.contains(pt) {
                let k = choose|k: int| 0 <= k < s.len() && s[k] == pt;
                if k < less.len() {
                    assert(less[k] == pt);
                }
            }
            if less.contains(pt) {
                let k = choose|k: int| 0 <= k < less.len() && less[k] == pt;
                assert(s[k] == pt);
            }
            assert(s[s.len() - 1] == last);
        }
        assert(!less.contains(last)) by {
            if less.contains(last) {
                let k = choose|k: int| 0 <= k < less.len() && less[k] == last;
                assert(s[k] == s[s.len() - 1]);
            }
        }
        if keep(last) {
            assert(kept == rest.push(last));
            assert(!rest.contains(last));
            assert forall|pt: Point| #[trigger] kept.contains(pt) <==> rest.contains(pt) || pt
                == last by {
                if rest.contains(pt) {
                    let k = choose|k: int| 0 <= k < rest.len() && rest[k] == pt;
                    assert(kept[k] == pt);
                }
                assert(kept[rest.len() as int] == last);
            }
        }
    }
}

proof fn lemma_swap_keeps(s: Seq<Move>, i: int, j: int)
    requires
        0 <= i < s.len(),
        0 <= j < s.len(),
        s.no_duplicates(),
    ensures
        swapped(s, i, j).no_duplicates(),
        forall|x: Move| #[trigger] swapped(s, i, j).contains(x) <==> s.contains(x),
{
    let t = swapped(s, i, j);
    lemma_swapped(s, i, j);
    assert(swapped(t, i, j) =~= s);
    lemma_swapped(t, i, j);
}

proof fn lemma_shuffle_keeps(s: Seq<Move>, rng: u64, i: int)
    requires
        i < s.len() <= 362,
        s.no_duplicates(),
    ensures
        (shuffled(s, rng, i)).0.len() == s.len(),
        (shuffled(s, rng, i)).0.no_duplicates(),
        forall|x: Move| #[trigger] (shuffled(s, rng, i)).0.contains(x) <==> s.contains(x),
    decreases i,
{
    if i > 0 {
        let drawn = mcts::advance(rng);
        let j = mcts::pick(drawn, (i + 1) as nat) as int;
        mcts::lemma_pick(drawn, (i + 1) as nat);
        lemma_swap_keeps(s, i, j);
        lemma_shuffle_keeps(swapped(s, i, j), drawn, i - 1);
    }
}

/// Is `mv` a move worth looking at for `c`: a pass, or a play on a point of the board
/// that the rules allow and that fills none of its own eyes?
pub open spec fn worth_looking_at(pos: Position, c: Color, mv: Move) -> bool {
    match mv {
        Move::Pass => true,
        Move::Play(pt) => pos.on_board(pt as int) && pos.illegal(pt, c) is None
            && !rules::eyelike(pos.cells, pt as int, c),
        Move::Resign => false,
    }
}

/// The candidate moves are all the moves worth looking at, each of them once.
pub proof fn law_candidates_are_all_there_is(pos: Position, c: Color)
    requires
        pos.wf(),
    ensures
        pos.candidate_moves(c).no_duplicates(),
        forall|mv: Move| #[trigger]
            pos.candidate_moves(c).contains(mv) <==> worth_looking_at(pos, c, mv),
{
    let good = |pt: Point| area::candidate(pos.cells, pos.ko, c, pt);
    let pts = board::points_of(pos.size);
    let kept = pts.filter(good);
    let moves = kept.map_values(|pt: Point| Move::Play(pt));
    let all = pos.candidate_moves(c);
    assert(all == moves.push(Move::Pass));
    assert forall|j: int, k: int| 0 <= j < pts.len() && 0 <= k < pts.len() && j != k implies pts[j]
        != pts[k] by {
        board::lemma_points_distinct(pos.size, j, k);
    }
    lemma_kept(pts, good);
    lemma_candidate_moves(pos, c);
    assert forall|mv: Move| #[trigger] all.contains(mv) <==> worth_looking_at(pos, c, mv) by {
        if worth_looking_at(pos, c, mv) {
            if let Move::Play(pt) = mv {
                board::lemma_points_cover(pos.size, pt as int);
                let i = choose|i: int| 0 <= i < pts.len() && #[trigger] pts[i] == pt;
                assert(pts.contains(pt));
                assert(good(pt));
                assert(kept.contains(pt));
                let k = choose|k: int| 0 <= k < kept.len() && kept[k] == pt;
                assert(all[k] == mv);
            } else {
                assert(all[moves.len() as int] == mv);
            }
        }
    }
    assert forall|j: int, k: int| 0 <= j < all.len() && 0 <= k < all.len() && j != k implies all[j]
        != all[k] by {
        if j < moves.len() && k < moves.len() {
            assert(kept[j] != kept[k]);
        }
    }
}

/// Do the edges hold each of the moves worth looking at, and each of them once?
pub open spec fn complete(edges: Seq<Edge>, pos: Position, c: Color) -> bool {
    &&& forall|mv: Move|
        #![trigger worth_looking_at(pos, c, mv)]
        worth_looking_at(pos, c, mv) <==> exists|j: int|
            0 <= j < edges.len() && (#[trigger] edges[j]).mv == mv
    &&& forall|j: int, k: int|
        0 <= j < edges.len() && 0 <= k < edges.len() && j != k ==> (#[trigger] edges[j]).mv != (
        #[trigger] edges[k]).mv
}

/// A node that is given its edges is given one for every move worth looking at, and no
/// other: whatever may be played is looked at. Nothing is known of any of them yet.
pub proof fn law_every_move_gets_an_edge(t: TreeState)
    requires
        t.board.wf(),
        0 <= t.here < t.nodes.len(),
        t.should_expand(),
    ensures
        complete(t.arrived().nodes[t.here].edges, t.board, t.nodes[t.here].to_move),
        t.arrived().nodes[t.here].edges.len() == t.board.candidate_moves(
            t.nodes[t.here].to_move,
        ).len(),
        forall|j: int|
            0 <= j < t.arrived().nodes[t.here].edges.len() ==> {
                let e = #[trigger] t.arrived().nodes[t.here].edges[j];
                e.child is None && e.rave_visits == 0 && e.rave_wins == 0
            },
        forall|i: int|
            0 <= i < t.nodes.len() && i != t.here ==> #[trigger] t.arrived().nodes[i] == t.nodes[i],
{
    let c = t.nodes[t.here].to_move;
    let moves = t.board.candidate_moves(c);
    lemma_candidate_moves(t.board, c);
    law_candidates_are_all_there_is(t.board, c);
    lemma_shuffle_keeps(moves, t.rng, moves.len() - 1);
    let mixed = (shuffled(moves, t.rng, moves.len() - 1)).0;
    let edges = t.arrived().nodes[t.here].edges;
    assert(edges.len() == mixed.len());
    assert forall|j: int| 0 <= j < edges.len() implies (#[trigger] edges[j]).mv == mixed[j] by {}
    assert forall|mv: Move|
        #![trigger worth_looking_at(t.board, c, mv)]
        worth_looking_at(t.board, c, mv) <==> exists|j: int|
            0 <= j < edges.len() && (#[trigger] edges[j]).mv == mv by {
        assert(moves.contains(mv) <==> mixed.contains(mv));
        if mixed.contains(mv) {
            let k = choose|k: int| 0 <= k < mixed.len() && mixed[k] == mv;
            assert(edges[k].mv == mv);
        }
        if exists|j: int| 0 <= j < edges.len() && (#[trigger] edges[j]).mv == mv {
            let j = choose|j: int| 0 <= j < edges.len() && (#[trigger] edges[j]).mv == mv;
            assert(mixed[j] == mv);
        }
    }
}

/// A playout is counted where it went and nowhere else. The root has been visited once
/// more. So has every node that a step of the simulation led to, and it has been won
/// once more exactly if the side that made that step has won. All other nodes are as
/// they were.
pub proof fn law_results_are_counted_on_the_way(t: TreeState, k: int, i: int)
    requires
        t.landed(),
        0 <= i < t.nodes.len(),
    ensures
        ({
            let u = t.finished();
            let end = Playout::from(t.board, t.rng, t.seq).finished(t.params.atari_answer_percent);
            let black_won = area::claims_margin(end.pos.cells) > t.params.komi;
            &&& u.playouts == t.playouts + 1
            &&& u.nodes.len() == t.nodes.len()
            &&& u.nodes[0].visits == t.nodes[0].visits + 1
            &&& u.nodes[0].wins == t.nodes[0].wins
            &&& 0 <= k < t.path.len() && t.edge_taken(k).child == Some(i as u32) ==> {
                let black_moved = t.nodes[t.path[k].node as int].to_move == Color::Black;
                &&& u.nodes[i].visits == t.nodes[i].visits + 1
                &&& u.nodes[i].wins == t.nodes[i].wins + if black_moved == black_won {
                    1int
                } else {
                    0
                }
            }
            &&& i > 0 && (forall|m: int|
                0 <= m < t.path.len() ==> #[trigger] t.edge_taken(m).child != Some(i as u32)) ==> {
                &&& u.nodes[i].visits == t.nodes[i].visits
                &&& u.nodes[i].wins == t.nodes[i].wins
            }
            &&& u.nodes[i].to_move == t.nodes[i].to_move
            &&& u.nodes[i].edges.len() == t.nodes[i].edges.len()
        }),
{
    let u = t.finished();
    let end = Playout::from(t.board, t.rng, t.seq).finished(t.params.atari_answer_percent);
    let winner = mcts::winner_of(end.pos, t.params.komi);
    assert forall|m: int| 0 <= m < t.path.len() implies !t.reached_by(0, m) by {
        assert(t.step_ok(m));
        assert(t.node_ok(t.path[m].node as int));
        assert(t.edge_ok(t.path[m].node as int, t.path[m].edge as int));
    }
    assert(u.nodes[0] == t.node_after(0, end.moves, winner));
    assert(u.nodes[i] == t.node_after(i, end.moves, winner));
    if 0 <= k < t.path.len() && t.edge_taken(k).child == Some(i as u32) {
        assert(t.reached_by(i, k));
        assert forall|m: int| #[trigger] t.reached_by(i, m) implies m == k by {
            if m < k {
                lemma_children_differ(t, m, k);
            } else if m > k {
                lemma_children_differ(t, k, m);
            }
        }
    }
}

/// Two steps of a simulation lead to different nodes.
proof fn lemma_children_differ(t: TreeState, k: int, m: int)
    requires
        t.landed(),
        0 <= k < m < t.path.len(),
    ensures
        t.edge_taken(k).child != t.edge_taken(m).child,
        t.path[k].node < t.path[m].node,
    decreases m - k,
{
    assert(t.step_ok(k) && t.step_ok(m) && t.step_ok(m - 1) && t.step_ok(k + 1));
    assert(t.node_ok(t.path[m].node as int));
    assert(t.edge_ok(t.path[m].node as int, t.path[m].edge as int));
    assert(t.node_ok(t.path[k].node as int));
    assert(t.edge_ok(t.path[k].node as int, t.path[k].edge as int));
    if k + 1 < m {
        lemma_children_differ(t, k + 1, m);
    }
}

/// The edges of a node that the simulation went through are credited for what its
/// player played from there on: an edge whose move that player made, at this node or
/// later, in the tree or in the playout, has come up once more, and with success exactly
/// if that player has won. Other edges, and those of other nodes, are as they were.
pub proof fn law_moves_are_credited_all_the_way(t: TreeState, k: int, i: int, j: int)
    requires
        t.landed(),
        0 <= i < t.nodes.len(),
        0 <= j < t.nodes[i].edges.len(),
        t.nodes[i].edges[j].rave_visits < u32::MAX,
    ensures
        ({
            let u = t.finished();
            let end = Playout::from(t.board, t.rng, t.seq).finished(t.params.atari_answer_percent);
            let black_won = area::claims_margin(end.pos.cells) > t.params.komi;
            let e = t.nodes[i].edges[j];
            let f = u.nodes[i].edges[j];
            let c = t.nodes[i].to_move;
            let made = e.mv matches Move::Play(pt) && exists|m: int|
                t.path[k].before <= m < end.moves.len() && #[trigger] end.moves[m] == (pt, c);
            &&& f.mv == e.mv
            &&& f.child == e.child
            &&& 0 <= k < t.path.len() && t.path[k].node == i ==> {
                &&& f.rave_visits == e.rave_visits + if made {
                    1int
                } else {
                    0
                }
                &&& f.rave_wins == e.rave_wins + if made && (c == Color::Black) == black_won {
                    1int
                } else {
                    0
                }
            }
            &&& (forall|m: int| 0 <= m < t.path.len() ==> (#[trigger] t.path[m]).node != i) ==> f
                == e
        }),
{
    let u = t.finished();
    let end = Playout::from(t.board, t.rng, t.seq).finished(t.params.atari_answer_percent);
    let winner = mcts::winner_of(end.pos, t.params.komi);
    let n = t.nodes[i];
    let e = n.edges[j];
    assert(t.node_ok(i));
    assert(t.edge_ok(i, j));
    assert(u.nodes[i] == t.node_after(i, end.moves, winner));
    let hit = exists|m: int| #[trigger]
        t.left_by(i, m) && came_up(e, n.to_move, end.moves, t.path[m].before as int);
    assert(u.nodes[i].edges[j] == credit(e, hit, winner == n.to_move));
    if 0 <= k < t.path.len() && t.path[k].node == i {
        assert(t.left_by(i, k));
        assert forall|m: int| #[trigger] t.left_by(i, m) implies m == k by {
            if m < k {
                lemma_children_differ(t, m, k);
            } else if m > k {
                lemma_children_differ(t, k, m);
            }
        }
        if came_up(e, n.to_move, end.moves, t.path[k].before as int) {
            assert(hit);
        }
    }
}

/// Only the root and nodes that have been visited often enough are given edges, and
/// only while the tree has room; and those are given them as soon as they are come to.
pub proof fn law_nodes_wait_until_they_are_warm(t: TreeState)
    requires
        t.board.wf(),
        0 <= t.here < t.nodes.len(),
        t.nodes[t.here].edges.len() == 0,
    ensures
        ({
            let warm = t.here == 0 || t.nodes[t.here].visits >= t.params.expand_threshold;
            if warm && t.nodes.len() < t.params.max_nodes {
                complete(t.arrived().nodes[t.here].edges, t.board, t.nodes[t.here].to_move)
            } else {
                t.arrived() == t
            }
        }),
{
    if t.should_expand() {
        law_every_move_gets_an_edge(t);
    }
}

/// Following an edge makes its move on the board of the simulation and notes it: the
/// stone that it puts down is added to those played, in the colour of the side to move.
/// The tree grows by one node where the edge led nowhere yet, for the other side to
/// move, and the edge leads there from then on. An edge whose move turns out to be
/// illegal is taken out, and nothing else changes.
#[verifier::rlimit(40)]
pub proof fn law_following_an_edge_makes_its_move(t: TreeState, j: int)
    requires
        t.descending(),
        0 <= j < t.nodes[t.here].edges.len(),
        t.nodes.len() < u32::MAX,
        t.seq.len() < u32::MAX,
    ensures
        ({
            let u = t.followed(j);
            let e = t.nodes[t.here].edges[j];
            let edges = u.nodes[t.here].edges;
            if t.board.outcome(e.mv) is Ok {
                &&& u.board == t.board.outcome(e.mv)->Ok_0
                &&& u.board.to_move == t.board.to_move.spec_other()
                &&& u.seq == match e.mv {
                    Move::Play(pt) => t.seq.push((pt, t.board.to_move)),
                    _ => t.seq,
                }
                &&& u.path.len() == t.path.len() + 1
                &&& u.path.last().node == t.here
                &&& u.path.last().edge == j
                &&& u.path.last().before == t.seq.len()
                &&& edges.len() == t.nodes[t.here].edges.len()
                &&& edges[j].mv == e.mv
                &&& edges[j].child is Some
                &&& e.child is Some ==> u.nodes == t.nodes && u.here == e.child->0
                &&& e.child is None ==> {
                    &&& u.nodes.len() == t.nodes.len() + 1
                    &&& edges[j].child->0 == t.nodes.len()
                    &&& u.nodes.last().to_move == u.board.to_move
                    &&& u.nodes.last().visits == 0
                    &&& u.nodes.last().wins == 0
                    &&& u.nodes.last().edges.len() == 0
                }
            } else {
                &&& u.board == t.board
                &&& u.seq == t.seq
                &&& u.path == t.path
                &&& u.nodes.len() == t.nodes.len()
                &&& edges.len() == t.nodes[t.here].edges.len() - 1
                &&& forall|k: int|
                    0 <= k < t.nodes[t.here].edges.len() && k != j ==> edges.contains(
                        #[trigger] t.nodes[t.here].edges[k],
                    )
            }
        }),
{
    let u = t.followed(j);
    assert(t.node_ok(t.here));
    let old_edges = t.nodes[t.here].edges;
    let e = old_edges[j];
    let edges = u.nodes[t.here].edges;
    if t.board.outcome(e.mv) is Err {
        assert forall|k: int| 0 <= k < old_edges.len() && k != j implies edges.contains(
            #[trigger] old_edges[k],
        ) by {
            if k == old_edges.len() - 1 {
                assert(edges[j] == old_edges[k]);
            } else {
                assert(edges[k] == old_edges[k]);
            }
        }
    }
}

/// What a tree reports of a root move is what it has counted: the visits and wins of
/// the node that the move leads to, or none where it was never tried; in the order of
/// the edges, one for each.
pub proof fn law_stats_are_what_was_counted(t: TreeState, j: int)
    requires
        0 <= j < t.nodes[0].edges.len(),
        t.nodes[0].edges[j].child matches Some(c) ==> 0 <= t.nodes[c as int].wins
            <= t.nodes[c as int].visits <= u32::MAX,
    ensures
        t.root_stats().len() == t.nodes[0].edges.len(),
        t.root_stats()[j].mv == t.nodes[0].edges[j].mv,
        t.nodes[0].edges[j].child is None ==> t.root_stats()[j].visits == 0
            && t.root_stats()[j].wins == 0,
        t.nodes[0].edges[j].child matches Some(c) ==> t.root_stats()[j].visits
            == t.nodes[c as int].visits && t.root_stats()[j].wins == t.nodes[c as int].wins,
{
}

/// Every root move that has been visited has a line, and no other move has one; each
/// line is the one that the tree expects after its move.
pub proof fn law_visited_moves_have_lines(t: TreeState, n: nat)
    requires
        n <= t.nodes[0].edges.len(),
    ensures
        forall|j: int|
            0 <= j < n && (#[trigger] t.root_stat(j)).visits > 0 ==> t.lines_upto(n).contains(
                LineState { mv: t.root_stat(j).mv, pv: t.variation(t.root_stat(j).mv) },
            ),
        forall|k: int|
            0 <= k < t.lines_upto(n).len() ==> (#[trigger] t.lines_upto(n)[k]).pv == t.variation(
                t.lines_upto(n)[k].mv,
            ) && exists|j: int|
                0 <= j < n && (#[trigger] t.root_stat(j)).mv == t.lines_upto(n)[k].mv
                    && t.root_stat(j).visits > 0,
    decreases n,
{
    if n > 0 {
        law_visited_moves_have_lines(t, (n - 1) as nat);
        let before = t.lines_upto((n - 1) as nat);
        let all = t.lines_upto(n);
        let s = t.root_stat(n - 1);
        assert forall|j: int| 0 <= j < n && (#[trigger] t.root_stat(j)).visits > 0 implies all.contains(
            LineState { mv: t.root_stat(j).mv, pv: t.variation(t.root_stat(j).mv) },
        ) by {
            let line = LineState { mv: t.root_stat(j).mv, pv: t.variation(t.root_stat(j).mv) };
            if j < n - 1 {
                assert(before.contains(line));
                let k = choose|k: int| 0 <= k < before.len() && before[k] == line;
                assert(all[k] == line);
            } else {
                assert(all[before.len() as int] == line);
            }
        }
        assert forall|k: int| 0 <= k < all.len() implies (#[trigger] all[k]).pv == t.variation(
            all[k].mv,
        ) && exists|j: int|
            0 <= j < n && (#[trigger] t.root_stat(j)).mv == all[k].mv && t.root_stat(j).visits
                > 0 by {
            if k < before.len() {
                assert(all[k] == before[k]);
                let j = choose|j: int|
                    0 <= j < n - 1 && (#[trigger] t.root_stat(j)).mv == before[k].mv
                        && t.root_stat(j).visits > 0;
                assert(t.root_stat(j).mv == all[k].mv);
            } else {
                assert(t.root_stat(n - 1).mv == all[k].mv);
            }
        }
    }
}

/// A simulation goes on down the tree as long as there is an edge to take and the two
/// sides have not both just passed.
pub proof fn law_two_passes_end_the_way_down(t: TreeState)
    ensures
        t.board.passes >= 2 ==> !t.has_choice(),
        t.nodes[t.here].edges.len() == 0 ==> !t.has_choice(),
        t.board.passes < 2 && t.nodes[t.here].edges.len() > 0 ==> t.has_choice(),
{
}

} // verus!
