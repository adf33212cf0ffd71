//! What the search needs to know of a puzzle: its pieces, the edges between
//! them, and the two points that lie to either side of each edge.
use vstd::prelude::*;

pub mod square;

pub use square::SquarePuzzle;

verus! {

/// The key of a piece: a number below the number of pieces.
#[derive(Debug, Clone, Copy, PartialEq, Eq, PartialOrd, Ord, Hash, Structural)]
pub struct PieceKey(pub usize);

/// The key of an edge between two pieces: a number below the number of edges.
#[derive(Debug, Clone, Copy, PartialEq, Eq, PartialOrd, Ord, Hash, Structural)]
pub struct EdgeKey(pub usize);

/// The key of a point: the place just to one side of an edge, on one of the
/// two pieces that meet there. A number below the number of points.
#[derive(Debug, Clone, Copy, PartialEq, Eq, PartialOrd, Ord, Hash, Structural)]
pub struct PointKey(pub usize);

/// A puzzle whose pieces may be exchanged where the symmetry of the puzzle
/// allows it.
///
/// The spec functions say what the puzzle is, over plain numbers; the
/// executable methods compute them; the proof functions are the laws that make
/// a puzzle well defined, which every implementation has to prove.
pub trait Puzzle {
    /// Whether this value describes a puzzle at all.
    spec fn wf(&self) -> bool;

    /// The number of pieces.
    spec fn pieces(&self) -> nat;

    /// The number of edges. There are twice as many points.
    spec fn edges(&self) -> nat;

    /// The number of points on the boundary of `piece`.
    spec fn sides(&self, piece: nat) -> nat;

    /// The point of `piece` at which a walk around it starts.
    spec fn anchor(&self, piece: nat) -> nat;

    /// The point that follows `point` on a walk around its piece.
    spec fn next(&self, point: nat) -> nat;

    /// How many steps the walk around its piece takes from the anchor to
    /// `point`.
    spec fn rank(&self, point: nat) -> nat;

    /// The piece that `point` lies on.
    spec fn piece_of(&self, point: nat) -> nat;

    /// One of the two points of `edge`.
    spec fn edge_anchor(&self, edge: nat) -> nat;

    /// The point across the edge from `point`.
    spec fn mate(&self, point: nat) -> nat;

    /// The edge that `point` lies at.
    spec fn edge_of(&self, point: nat) -> nat;

    /// Whether the symmetry of the puzzle can carry `a` to where `b` is.
    spec fn exchangeable(&self, a: nat, b: nat) -> bool;

    /// Whether points and edges of this puzzle can be written out.
    spec fn printable(&self) -> bool;

    /// The name of a point, as it is written out.
    spec fn point_text(&self, point: nat) -> Seq<char>;

    /// The name of an edge, as it is written out.
    spec fn edge_text(&self, edge: nat) -> Seq<char>;

    /// The number of pieces.
    fn num_pieces(&self) -> (n: usize)
        requires
            self.wf(),
        ensures
            n == self.pieces(),
    ;

    /// The number of edges between pieces.
    fn num_edges(&self) -> (n: usize)
        requires
            self.wf(),
        ensures
            n == self.edges(),
    ;

    /// The number of points: two for each edge.
    fn num_points(&self) -> (n: usize)
        requires
            self.wf(),
        ensures
            n == 2 * self.edges(),
    ;

    /// The anchor of `piece`: the point at which the walk around it starts.
    fn arbitrary_point_on_piece(&self, piece: PieceKey) -> (point: PointKey)
        requires
            self.wf(),
            piece.0 < self.pieces(),
        ensures
            point.0 == self.anchor(piece.0 as nat),
    ;

    /// The point that follows `point` on the walk around its piece.
    fn next_point_on_piece(&self, point: PointKey) -> (next: PointKey)
        requires
            self.wf(),
            point.0 < 2 * self.edges(),
        ensures
            next.0 == self.next(point.0 as nat),
    ;

    /// The piece that `point` lies on.
    fn point_piece(&self, point: PointKey) -> (piece: PieceKey)
        requires
            self.wf(),
            point.0 < 2 * self.edges(),
        ensures
            piece.0 == self.piece_of(point.0 as nat),
    ;

    /// One of the two points of `edge`.
    fn arbitrary_point_on_edge(&self, edge: EdgeKey) -> (point: PointKey)
        requires
            self.wf(),
            edge.0 < self.edges(),
        ensures
            point.0 == self.edge_anchor(edge.0 as nat),
    ;

    /// The point across the edge from `point`.
    fn other_point_on_edge(&self, point: PointKey) -> (other: PointKey)
        requires
            self.wf(),
            point.0 < 2 * self.edges(),
        ensures
            other.0 == self.mate(point.0 as nat),
    ;

    /// The edge that `point` lies at.
    fn point_edge(&self, point: PointKey) -> (edge: EdgeKey)
        requires
            self.wf(),
            point.0 < 2 * self.edges(),
        ensures
            edge.0 == self.edge_of(point.0 as nat),
    ;

    /// Whether the symmetry of the puzzle can carry `point_a` to where
    /// `point_b` is.
    fn can_exchange(&self, point_a: PointKey, point_b: PointKey) -> (yes: bool)
        requires
            self.wf(),
            point_a.0 < 2 * self.edges(),
            point_b.0 < 2 * self.edges(),
        ensures
            yes == self.exchangeable(point_a.0 as nat, point_b.0 as nat),
    ;

    /// Whether points and edges of this puzzle can be written out.
    fn is_printable(&self) -> (yes: bool)
        requires
            self.wf(),
        ensures
            yes == self.printable(),
    ;

    /// The name of `point`, as it is written out.
    fn format_point(&self, point: PointKey) -> (text: String)
        requires
            self.wf(),
            self.printable(),
            point.0 < 2 * self.edges(),
        ensures
            text@ == self.point_text(point.0 as nat),
    ;

    /// The name of `edge`, as it is written out.
    fn format_edge(&self, edge: EdgeKey) -> (text: String)
        requires
            self.wf(),
            self.printable(),
            edge.0 < self.edges(),
        ensures
            text@ == self.edge_text(edge.0 as nat),
    ;

    /// The counts fit the machine, and every piece has a point.
    proof fn lemma_sizes(&self)
        requires
            self.wf(),
        ensures
            self.pieces() <= usize::MAX,
            2 * self.edges() <= usize::MAX,
            forall|piece: nat| piece < self.pieces() ==> 1 <= #[trigger] self.sides(piece),
    ;

    /// The walk around a piece starts on that piece.
    proof fn lemma_anchor(&self, piece: nat)
        requires
            self.wf(),
            piece < self.pieces(),
        ensures
            self.anchor(piece) < 2 * self.edges(),
            self.piece_of(self.anchor(piece)) == piece,
    ;

    /// A step of the walk stays on the piece.
    proof fn lemma_next(&self, point: nat)
        requires
            self.wf(),
            point < 2 * self.edges(),
        ensures
            self.next(point) < 2 * self.edges(),
            self.piece_of(point) < self.pieces(),
            self.piece_of(self.next(point)) == self.piece_of(point),
    ;

    /// The walk starts at the anchor. Each step takes it one point further,
    /// and the step from the last point of the piece takes it back to the
    /// anchor.
    proof fn lemma_rank(&self, point: nat)
        requires
            self.wf(),
            point < 2 * self.edges(),
        ensures
            self.rank(point) < self.sides(self.piece_of(point)),
            self.rank(self.anchor(self.piece_of(point))) == 0,
            self.rank(self.next(point)) == if self.rank(point) + 1 == self.sides(
                self.piece_of(point),
            ) {
                0
            } else {
                self.rank(point) + 1
            },
    ;

    /// The walk passes no point twice: two points of a piece that are as many
    /// steps from the anchor are one point.
    proof fn lemma_rank_injective(&self, a: nat, b: nat)
        requires
            self.wf(),
            a < 2 * self.edges(),
            b < 2 * self.edges(),
            self.piece_of(a) == self.piece_of(b),
            self.rank(a) == self.rank(b),
        ensures
            a == b,
    ;

    /// The anchor of an edge lies at that edge.
    proof fn lemma_edge_anchor(&self, edge: nat)
        requires
            self.wf(),
            edge < self.edges(),
        ensures
            self.edge_anchor(edge) < 2 * self.edges(),
            self.edge_of(self.edge_anchor(edge)) == edge,
    ;

    /// The point across an edge lies at the same edge, is another point, and
    /// has the first point across from it.
    proof fn lemma_mate(&self, point: nat)
        requires
            self.wf(),
            point < 2 * self.edges(),
        ensures
            self.mate(point) < 2 * self.edges(),
            self.mate(point) != point,
            self.mate(self.mate(point)) == point,
            self.edge_of(point) < self.edges(),
            self.edge_of(self.mate(point)) == self.edge_of(point),
    ;

    /// An edge has no points but the two across from each other.
    proof fn lemma_edge_points(&self, a: nat, b: nat)
        requires
            self.wf(),
            a < 2 * self.edges(),
            b < 2 * self.edges(),
            self.edge_of(a) == self.edge_of(b),
        ensures
            a == b || self.mate(a) == b,
    ;

    /// Being exchangeable is an equivalence.
    proof fn lemma_exchange_equivalence(&self, a: nat, b: nat, c: nat)
        requires
            self.wf(),
            a < 2 * self.edges(),
            b < 2 * self.edges(),
            c < 2 * self.edges(),
        ensures
            self.exchangeable(a, a),
            self.exchangeable(a, b) ==> self.exchangeable(b, a),
            self.exchangeable(a, b) && self.exchangeable(b, c) ==> self.exchangeable(a, c),
    ;

    /// Points that are exchangeable lie on pieces with as many points, and the
    /// points that follow them are exchangeable too.
    proof fn lemma_exchange_next(&self, a: nat, b: nat)
        requires
            self.wf(),
            a < 2 * self.edges(),
            b < 2 * self.edges(),
            self.exchangeable(a, b),
        ensures
            self.exchangeable(self.next(a), self.next(b)),
            self.sides(self.piece_of(a)) == self.sides(self.piece_of(b)),
    ;
}

/// The points that `point` may be exchanged with, in order of their keys.
pub open spec fn exchange_points<P: Puzzle>(puzzle: &P, point: nat) -> Seq<nat> {
    Seq::new(2 * puzzle.edges(), |i: int| i as nat).filter(
        |other: nat| puzzle.exchangeable(point, other),
    )
}

/// The pairs `(a, b)` with `b < a < n`, ordered by `a` and then by `b`.
pub open spec fn pairs_below(n: nat) -> Seq<(nat, nat)>
    decreases n,
{
    if n == 0 {
        Seq::empty()
    } else {
        pairs_below((n - 1) as nat) + Seq::new((n - 1) as nat, |b: int| ((n - 1) as nat, b as nat))
    }
}

/// There are `n * (n - 1) / 2` pairs below `n`, and each has its smaller
/// number second.
pub proof fn lemma_pairs_below(n: nat)
    ensures
        2 * pairs_below(n).len() == n * (n - 1),
        forall|i: int|
            0 <= i < pairs_below(n).len() ==> (#[trigger] pairs_below(n)[i]).1 < pairs_below(
                n,
            )[i].0 < n,
    decreases n,
{
    if n > 0 {
        lemma_pairs_below((n - 1) as nat);
        assert(n * (n - 1) == (n - 1) * (n - 2) + 2 * (n - 1)) by (nonlinear_arith);
    }
}

/// No pair occurs twice among the pairs below `n`.
pub proof fn lemma_pairs_below_distinct(n: nat)
    ensures
        forall|i: int, j: int|
            0 <= i < j < pairs_below(n).len() ==> #[trigger] pairs_below(n)[i]
                != #[trigger] pairs_below(n)[j],
    decreases n,
{
    if n > 0 {
        let rest = pairs_below((n - 1) as nat);
        lemma_pairs_below_distinct((n - 1) as nat);
        lemma_pairs_below((n - 1) as nat);
        let all = pairs_below(n);
        assert forall|i: int, j: int| 0 <= i < j < all.len() implies #[trigger] all[i]
            != #[trigger] all[j] by {
            if j < rest.len() {
            } else if i < rest.len() {
            }
        }
    }
}

/// Every pair `(a, b)` with `b < a < n` is among the pairs below `n`.
pub proof fn lemma_pairs_below_has(n: nat, a: nat, b: nat)
    requires
        b < a < n,
    ensures
        pairs_below(n).contains((a, b)),
    decreases n,
{
    let row = Seq::new((n - 1) as nat, |b: int| ((n - 1) as nat, b as nat));
    let rest = pairs_below((n - 1) as nat);
    if a == n - 1 {
        assert((rest + row)[rest.len() as int + b as int] == (a, b));
    } else {
        lemma_pairs_below_has((n - 1) as nat, a, b);
        let k = choose|k: int| 0 <= k < rest.len() && rest[k] == (a, b);
        assert((rest + row)[k] == (a, b));
    }
}

/// The keys of all pieces, in order.
pub fn puzzle_pieces<P: Puzzle>(puzzle: &P) -> (keys: Vec<PieceKey>)
    requires
        puzzle.wf(),
    ensures
        keys@.len() == puzzle.pieces(),
        forall|i: int| 0 <= i < keys@.len() ==> (#[trigger] keys@[i]).0 == i,
{
    let n = puzzle.num_pieces();
    let mut keys: Vec<PieceKey> = Vec::new();
    let mut i: usize = 0;
    while i < n
        invariant
            i <= n,
            keys@.len() == i,
            forall|k: int| 0 <= k < i ==> (#[trigger] keys@[k]).0 == k,
        decreases n - i,
    {
        keys.push(PieceKey(i));
        i = i + 1;
    }
    keys
}

/// The keys of all edges, in order.
pub fn puzzle_edges<P: Puzzle>(puzzle: &P) -> (keys: Vec<EdgeKey>)
    requires
        puzzle.wf(),
    ensures
        keys@.len() == puzzle.edges(),
        forall|i: int| 0 <= i < keys@.len() ==> (#[trigger] keys@[i]).0 == i,
{
    let n = puzzle.num_edges();
    let mut keys: Vec<EdgeKey> = Vec::new();
    let mut i: usize = 0;
    while i < n
        invariant
            i <= n,
            keys@.len() == i,
            forall|k: int| 0 <= k < i ==> (#[trigger] keys@[k]).0 == k,
        decreases n - i,
    {
        keys.push(EdgeKey(i));
        i = i + 1;
    }
    keys
}

/// The keys of all points, in order.
pub fn puzzle_points<P: Puzzle>(puzzle: &P) -> (keys: Vec<PointKey>)
    requires
        puzzle.wf(),
    ensures
        keys@.len() == 2 * puzzle.edges(),
        forall|i: int| 0 <= i < keys@.len() ==> (#[trigger] keys@[i]).0 == i,
{
    let n = puzzle.num_points();
    let mut keys: Vec<PointKey> = Vec::new();
    let mut i: usize = 0;
    while i < n
        invariant
            i <= n,
            keys@.len() == i,
            forall|k: int| 0 <= k < i ==> (#[trigger] keys@[k]).0 == k,
        decreases n - i,
    {
        keys.push(PointKey(i));
        i = i + 1;
    }
    keys
}

/// Every pair of distinct edges once, the larger key first, ordered by the
/// larger key and then by the smaller.
pub fn puzzle_edge_pairs<P: Puzzle>(puzzle: &P) -> (pairs: Vec<(EdgeKey, EdgeKey)>)
    requires
        puzzle.wf(),
    ensures
        pairs@.len() == pairs_below(puzzle.edges()).len(),
        forall|i: int|
            0 <= i < pairs@.len() ==> ((#[trigger] pairs@[i]).0.0 as nat, pairs@[i].1.0 as nat)
                == pairs_below(puzzle.edges())[i],
{
    let n = puzzle.num_edges();
    let mut pairs: Vec<(EdgeKey, EdgeKey)> = Vec::new();
    let mut a: usize = 0;
    while a < n
        invariant
            a <= n,
            pairs@.len() == pairs_below(a as nat).len(),
            forall|i: int|
                0 <= i < pairs@.len() ==> ((#[trigger] pairs@[i]).0.0 as nat, pairs@[i].1.0 as nat)
                    == pairs_below(a as nat)[i],
        decreases n - a,
    {
        let ghost before = pairs@;
        let mut b: usize = 0;
        while b < a
            invariant
                b <= a,
                pairs@.len() == before.len() + b,
                before.len() == pairs_below(a as nat).len(),
                forall|i: int| 0 <= i < before.len() ==> pairs@[i] == before[i],
                forall|i: int|
                    before.len() <= i < pairs@.len() ==> (#[trigger] pairs@[i]).0.0 == a
                        && pairs@[i].1.0 == i - before.len(),
            decreases a - b,
        {
            pairs.push((EdgeKey(a), EdgeKey(b)));
            b = b + 1;
        }
        proof {
            assert forall|i: int| 0 <= i < pairs@.len() implies ((#[trigger] pairs@[i]).0.0 as nat, pairs@[i].1.0 as nat)
                == pairs_below((a + 1) as nat)[i] by {
                if i < before.len() {
                    assert(pairs@[i] == before[i]);
                }
            }
        }
        a = a + 1;
    }
    pairs
}

/// Every pair of distinct points once, the larger key first, ordered by the
/// larger key and then by the smaller.
pub fn puzzle_point_pairs<P: Puzzle>(puzzle: &P) -> (pairs: Vec<(PointKey, PointKey)>)
    requires
        puzzle.wf(),
    ensures
        pairs@.len() == pairs_below(2 * puzzle.edges()).len(),
        forall|i: int|
            0 <= i < pairs@.len() ==> ((#[trigger] pairs@[i]).0.0 as nat, pairs@[i].1.0 as nat)
                == pairs_below(2 * puzzle.edges())[i],
{
    let n = puzzle.num_points();
    let mut pairs: Vec<(PointKey, PointKey)> = Vec::new();
    let mut a: usize = 0;
    while a < n
        invariant
            a <= n,
            pairs@.len() == pairs_below(a as nat).len(),
            forall|i: int|
                0 <= i < pairs@.len() ==> ((#[trigger] pairs@[i]).0.0 as nat, pairs@[i].1.0 as nat)
                    == pairs_below(a as nat)[i],
        decreases n - a,
    {
        let ghost before = pairs@;
        let mut b: usize = 0;
        while b < a
            invariant
                b <= a,
                pairs@.len() == before.len() + b,
                before.len() == pairs_below(a as nat).len(),
                forall|i: int| 0 <= i < before.len() ==> pairs@[i] == before[i],
                forall|i: int|
                    before.len() <= i < pairs@.len() ==> (#[trigger] pairs@[i]).0.0 == a
                        && pairs@[i].1.0 == i - before.len(),
            decreases a - b,
        {
            pairs.push((PointKey(a), PointKey(b)));
            b = b + 1;
        }
        proof {
            assert forall|i: int| 0 <= i < pairs@.len() implies ((#[trigger] pairs@[i]).0.0 as nat, pairs@[i].1.0 as nat)
                == pairs_below((a + 1) as nat)[i] by {
                if i < before.len() {
                    assert(pairs@[i] == before[i]);
                }
            }
        }
        a = a + 1;
    }
    pairs
}

/// The points that `point` may be exchanged with, in order of their keys.
pub fn puzzle_exchange_points<P: Puzzle>(puzzle: &P, point: PointKey) -> (keys: Vec<PointKey>)
    requires
        puzzle.wf(),
        point.0 < 2 * puzzle.edges(),
    ensures
        keys@.map_values(|k: PointKey| k.0 as nat) == exchange_points(puzzle, point.0 as nat),
        forall|i: int| 0 <= i < keys@.len() ==> (#[trigger] keys@[i]).0 < 2 * puzzle.edges(),
{
    let n = puzzle.num_points();
    let ghost all = Seq::new(2 * puzzle.edges(), |i: int| i as nat);
    let ghost keep = |other: nat| puzzle.exchangeable(point.0 as nat, other);
    let mut keys: Vec<PointKey> = Vec::new();
    let mut i: usize = 0;
    while i < n
        invariant
            i <= n,
            n == 2 * puzzle.edges(),
            puzzle.wf(),
            point.0 < n,
            all == Seq::new(2 * puzzle.edges(), |i: int| i as nat),
            keep == |other: nat| puzzle.exchangeable(point.0 as nat, other),
            keys@.map_values(|k: PointKey| k.0 as nat) == all.take(i as int).filter(keep),
            forall|k: int| 0 <= k < keys@.len() ==> (#[trigger] keys@[k]).0 < n,
        decreases n - i,
    {
        let other = PointKey(i);
        proof {
            reveal(Seq::filter);
            assert(all.take(i + 1).drop_last() =~= all.take(i as int));
        }
        if puzzle.can_exchange(point, other) {
            keys.push(other);
        }
        i = i + 1;
    }
    proof {
        assert(all.take(n as int) =~= all);
    }
    keys
}

} // verus!
