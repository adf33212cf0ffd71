//! The search for a doubling of a puzzle: builds the formula, asks the solver
//! for a model, reads the doubling off it, and rules it out for the next
//! query.
use vstd::prelude::*;
use crate::encoding::{
    chosen_in_row, col_vars, differing, orbit_put, pair_vars, present, row_vars, table_within,
    Encoding, Status,
};
use crate::exhaustion::{
    lemma_anchor_vars_of_table, lemma_blocked_patterns, lemma_open_patterns_finite,
    lemma_open_patterns_none, pattern,
};
use crate::formula::{all_within, lemma_grows_holds, lemma_grows_trans, lemma_with_clause};
use crate::literal::{Assignment, Literal, MAX_VARIABLES};
use crate::complete::{is_doubling, lemma_follows_doubling, touches};
use crate::meaning::{lies_across, shapes_match, ways_to_match};
use crate::puzzle::{
    exchange_points, puzzle_edge_pairs, puzzle_edges, puzzle_exchange_points, puzzle_pieces,
    lemma_pairs_below, lemma_pairs_below_distinct, lemma_pairs_below_has, pairs_below,
    puzzle_point_pairs, puzzle_points,
    EdgeKey, PieceKey, PointKey, Puzzle, SquarePuzzle,
};
use crate::sat::{is_contradiction, SatProblem, SatSolution};
use crate::sorting::{pair_le, sorted_pairs};
use crate::tables::{ordered, MatchingVars, TableVars, KEY_LIMIT};
use crate::text::{chars_of, join_chars, joined, push_all, string_of, views};

verus! {

/// A doubling, as read off a model of the formula.
pub struct Doubling {
    /// Where each piece goes: its anchor and the point that the anchor comes
    /// to lie on.
    pub point_dest: Vec<(PointKey, PointKey)>,
    /// Which edges have the same shape: each pair once, the smaller key
    /// first, in strictly ascending order.
    pub edge_matching: Vec<(EdgeKey, EdgeKey)>,
    /// The model.
    pub model: SatSolution,
}

/// Why the search gave no answer.
#[derive(Clone, Copy, Debug, PartialEq, Eq)]
pub enum SearchError {
    /// The formula could not be built; the status says why.
    Unbuilt(Status),
}

/// The keys of pairs of points, as numbers.
pub open spec fn point_pair_keys(pairs: Seq<(PointKey, PointKey)>) -> Seq<(nat, nat)> {
    pairs.map_values(|p: (PointKey, PointKey)| (p.0.0 as nat, p.1.0 as nat))
}

/// How "the piece at `pair.0` goes where `pair.1` is" is written out: the
/// names of the two points with `=>` between them.
pub open spec fn point_dest_item<P: Puzzle>(puzzle: &P, pair: (PointKey, PointKey)) -> Seq<char> {
    puzzle.point_text(pair.0.0 as nat) + seq!['=', '>'] + puzzle.point_text(pair.1.0 as nat)
}

/// How "the edges `pair.0` and `pair.1` have the same shape" is written out:
/// the names of the two edges with `=` between them.
pub open spec fn edge_matching_item<P: Puzzle>(puzzle: &P, pair: (EdgeKey, EdgeKey)) -> Seq<char> {
    puzzle.edge_text(pair.0.0 as nat) + seq!['='] + puzzle.edge_text(pair.1.0 as nat)
}

/// The line that says where the pieces go: `piece dest: ` and then the pairs,
/// with a blank between each two.
pub open spec fn point_dest_line<P: Puzzle>(puzzle: &P, pairs: Seq<(PointKey, PointKey)>) -> Seq<
    char,
> {
    seq!['p', 'i', 'e', 'c', 'e', ' ', 'd', 'e', 's', 't', ':', ' '] + joined(
        pairs.map_values(|pair: (PointKey, PointKey)| point_dest_item(puzzle, pair)),
        seq![' '],
    )
}

/// The line that says which edges match: `edge matching: ` and then the
/// pairs, with a blank between each two.
pub open spec fn edge_matching_line<P: Puzzle>(puzzle: &P, pairs: Seq<(EdgeKey, EdgeKey)>) -> Seq<
    char,
> {
    seq!['e', 'd', 'g', 'e', ' ', 'm', 'a', 't', 'c', 'h', 'i', 'n', 'g', ':', ' '] + joined(
        pairs.map_values(|pair: (EdgeKey, EdgeKey)| edge_matching_item(puzzle, pair)),
        seq![' '],
    )
}

/// The search for the doublings of one puzzle.
pub struct JigsawDoubler<P: Puzzle> {
    puzzle: P,
    sat: SatProblem,
    point_dest_vars: TableVars,
    point_dest_adjacent_vars: MatchingVars,
    edge_matching_vars: MatchingVars,
    status: Status,
}

impl<P: Puzzle> View for JigsawDoubler<P> {
    type V = Encoding;

    closed spec fn view(&self) -> Encoding {
        Encoding {
            formula: self.sat@,
            point_dest: self.point_dest_vars@,
            adjacent: self.point_dest_adjacent_vars@,
            matching: self.edge_matching_vars@,
            status: self.status,
        }
    }
}

impl<P: Puzzle> JigsawDoubler<P> {
    /// The puzzle that is searched.
    pub closed spec fn puzzle(&self) -> &P {
        &self.puzzle
    }

    /// The puzzle is a puzzle, the state of the construction is well formed,
    /// and while nothing has gone wrong every point is a key that the tables
    /// can hold.
    pub closed spec fn wf(&self) -> bool {
        &&& self.puzzle.wf()
        &&& self.sat.wf()
        &&& self@.wf()
        &&& self.status == Status::Building ==> 2 * self.puzzle.edges() < KEY_LIMIT
    }

    /// Whether the formula has been built for the puzzle, and nothing has
    /// been done since but to rule out doublings.
    pub open spec fn ready(&self) -> bool {
        self@.follows(Encoding::start(self.puzzle()).encoded(self.puzzle()))
    }

    /// In a search that is ready, a pair of points has a destination variable
    /// exactly when the two are points of the puzzle that may be exchanged.
    pub proof fn lemma_point_dest_keys(&self, s: nat, d: nat)
        requires
            self.wf(),
            self.ready(),
            self@.status == Status::Building,
        ensures
            self@.point_dest.contains_key((s, d)) <==> s < 2 * self.puzzle().edges() && d < 2
                * self.puzzle().edges() && self.puzzle().exchangeable(s, d),
    {
        let puzzle = self.puzzle();
        crate::complete::lemma_first_tables(puzzle);
        crate::orbits::lemma_point_dest(puzzle, s, d);
    }

    /// The search with its formula built: [`JigsawDoubler::new`] and then
    /// [`JigsawDoubler::encode`]. Whatever the puzzle, no pair of keys is met
    /// twice on the way and none is missed.
    pub fn built(puzzle: P) -> (doubler: JigsawDoubler<P>)
        requires
            puzzle.wf(),
        ensures
            doubler.wf(),
            *doubler.puzzle() == puzzle,
            doubler@ == Encoding::start(&puzzle).encoded(&puzzle),
            doubler@.no_defect(),
            doubler.ready(),
    {
        let mut doubler = JigsawDoubler::new(puzzle);
        doubler.encode();
        doubler
    }

    /// A search that has built nothing yet.
    pub fn new(puzzle: P) -> (doubler: JigsawDoubler<P>)
        requires
            puzzle.wf(),
        ensures
            doubler.wf(),
            *doubler.puzzle() == puzzle,
            doubler@ == Encoding::start(&puzzle),
    {
        let points = puzzle.num_points();
        let status = if (points as u64) < KEY_LIMIT {
            Status::Building
        } else {
            Status::OutOfVariables
        };
        let doubler = JigsawDoubler {
            puzzle,
            sat: SatProblem::new(),
            point_dest_vars: TableVars::new(),
            point_dest_adjacent_vars: MatchingVars::new(),
            edge_matching_vars: MatchingVars::new(),
            status,
        };
        doubler
    }

    /// Records that something went wrong, unless something did before.
    fn fail(&mut self, status: Status)
        requires
            old(self).wf(),
            status != Status::Building,
        ensures
            final(self).wf(),
            final(self)@ == old(self)@.fail(status),
            *final(self).puzzle() == *old(self).puzzle(),
    {
        if self.status == Status::Building {
            self.status = status;
        }
    }

    /// Hands out a variable for "the piece at `src_point` goes where
    /// `dest_point` is" and enters it for each pair of points that the move
    /// brings together.
    fn add_point_dest_var(&mut self, piece: PieceKey, src_point: PointKey, dest_point: PointKey)
        requires
            old(self).wf(),
            piece.0 < old(self).puzzle().pieces(),
            src_point.0 == old(self).puzzle().anchor(piece.0 as nat),
            dest_point.0 < 2 * old(self).puzzle().edges(),
        ensures
            final(self).wf(),
            *final(self).puzzle() == *old(self).puzzle(),
            final(self)@ == old(self)@.dest_var(
                old(self).puzzle(),
                src_point.0 as nat,
                dest_point.0 as nat,
                old(self).puzzle().sides(piece.0 as nat),
            ),
            old(self)@.formula.grows_to(final(self)@.formula),
    {
        proof {
            let f = self@.formula;
            assert(f.clauses.take(f.clauses.len() as int) =~= f.clauses);
        }
        if self.status != Status::Building {
            return ;
        }
        if self.sat.num_vars() >= MAX_VARIABLES {
            self.fail(Status::OutOfVariables);
            return ;
        }
        let ghost before = self@;
        let ghost sides = self.puzzle.sides(piece.0 as nat);
        let ghost s0 = src_point.0 as nat;
        proof {
            self.puzzle.lemma_anchor(piece.0 as nat);
            self.puzzle.lemma_rank(s0);
        }
        let ghost puzzle0 = self.puzzle;
        let var = self.sat.var();
        let ghost wanted = orbit_put(
            &self.puzzle,
            before.point_dest,
            s0,
            dest_point.0 as nat,
            var,
            sides,
        );
        let mut clash = false;
        let mut src_other = src_point;
        let mut dest_other = dest_point;
        let ghost mut k: nat = 0;
        loop
            invariant_except_break
                k < sides,
                self.puzzle.rank(src_other.0 as nat) == k,
                wanted == ({
                    let (rest, later) = orbit_put(
                        &self.puzzle,
                        self.point_dest_vars@,
                        src_other.0 as nat,
                        dest_other.0 as nat,
                        var,
                        (sides - k) as nat,
                    );
                    (rest, clash || later)
                }),
            invariant
                self.puzzle.wf(),
                self.sat.wf(),
                self.sat@ == before.formula.with_var(),
                self.sat@.wf(),
                self.status == Status::Building,
                2 * self.puzzle.edges() < KEY_LIMIT,
                self.point_dest_adjacent_vars@ == before.adjacent,
                self.edge_matching_vars@ == before.matching,
                table_within(self.point_dest_vars@, self.sat@.num_vars),
                table_within(before.adjacent, self.sat@.num_vars),
                table_within(before.matching, self.sat@.num_vars),
                var.within(self.sat@.num_vars),
                piece.0 < self.puzzle.pieces(),
                sides == self.puzzle.sides(piece.0 as nat),
                s0 == src_point.0 == self.puzzle.anchor(piece.0 as nat),
                self.puzzle.rank(s0) == 0,
                src_other.0 < 2 * self.puzzle.edges(),
                dest_other.0 < 2 * self.puzzle.edges(),
                self.puzzle.piece_of(src_other.0 as nat) == piece.0,
                self.puzzle.piece_of(s0) == piece.0,
                s0 < 2 * self.puzzle.edges(),
                self.puzzle == puzzle0,
            ensures
                wanted == (self.point_dest_vars@, clash),
            decreases sides - k,
        {
            proof {
                self.puzzle.lemma_rank(src_other.0 as nat);
                self.puzzle.lemma_next(src_other.0 as nat);
                self.puzzle.lemma_next(dest_other.0 as nat);
            }
            let ghost s = src_other.0 as nat;
            let ghost d = dest_other.0 as nat;
            match self.point_dest_vars.get(src_other.0, dest_other.0) {
                Some(_) => {
                    clash = true;
                },
                None => {
                    self.point_dest_vars.put(src_other.0, dest_other.0, var);
                },
            }
            src_other = self.puzzle.next_point_on_piece(src_other);
            dest_other = self.puzzle.next_point_on_piece(dest_other);
            proof {
                let (rest, later) = orbit_put(
                    &self.puzzle,
                    self.point_dest_vars@,
                    self.puzzle.next(s),
                    self.puzzle.next(d),
                    var,
                    (sides - k - 1) as nat,
                );
                k = k + 1;
            }
            if src_other == src_point {
                break ;
            }
            proof {
                if k == sides {
                    self.puzzle.lemma_rank_injective(src_other.0 as nat, s0);
                }
            }
        }
        if clash {
            self.status = Status::KeyMetTwice;
        }
    }

    /// Hands out the destination variables: for each piece, one for each
    /// point that its anchor may be exchanged with. The points that follow
    /// the anchor around the piece share the variables of the anchor, each
    /// with the point that follows the destination as often.
    pub fn add_point_dest_vars(&mut self)
        requires
            old(self).wf(),
        ensures
            final(self).wf(),
            *final(self).puzzle() == *old(self).puzzle(),
            final(self)@ == old(self)@.point_dest_vars(
                old(self).puzzle(),
                old(self).puzzle().pieces(),
            ),
            old(self)@.formula.grows_to(final(self)@.formula),
            final(self)@.formula.clauses == old(self)@.formula.clauses,
            final(self)@.adjacent == old(self)@.adjacent,
            final(self)@.matching == old(self)@.matching,
    {
        let ghost before = self@;
        let ghost puzzle = self.puzzle;
        let pieces = puzzle_pieces(&self.puzzle);
        proof {
            assert(before.formula.clauses.take(before.formula.clauses.len() as int)
                =~= before.formula.clauses);
        }
        let mut i: usize = 0;
        while i < pieces.len()
            invariant
                i <= pieces.len(),
                self.wf(),
                self.puzzle == puzzle,
                pieces@.len() == puzzle.pieces(),
                forall|k: int| 0 <= k < pieces@.len() ==> (#[trigger] pieces@[k]).0 == k,
                self@ == before.point_dest_vars(&puzzle, i as nat),
                before.formula.grows_to(self@.formula),
            decreases pieces.len() - i,
        {
            let src_piece = pieces[i];
            proof {
                self.puzzle.lemma_anchor(i as nat);
            }
            let src_point = self.puzzle.arbitrary_point_on_piece(src_piece);
            let dests = puzzle_exchange_points(&self.puzzle, src_point);
            let ghost start = self@;
            let ghost wanted = exchange_points(&puzzle, src_point.0 as nat);
            let ghost sides = puzzle.sides(i as nat);
            let mut j: usize = 0;
            while j < dests.len()
                invariant
                    j <= dests.len(),
                    self.wf(),
                    self.puzzle == puzzle,
                    i < puzzle.pieces(),
                    src_piece.0 == i,
                    src_point.0 == puzzle.anchor(i as nat),
                    sides == puzzle.sides(i as nat),
                    dests@.map_values(|k: PointKey| k.0 as nat) == wanted,
                    forall|k: int|
                        0 <= k < dests@.len() ==> (#[trigger] dests@[k]).0 < 2 * puzzle.edges(),
                    self@ == start.dest_vars(
                        &puzzle,
                        src_point.0 as nat,
                        wanted.take(j as int),
                        sides,
                    ),
                    before.formula.grows_to(self@.formula),
                decreases dests.len() - j,
            {
                proof {
                    assert(wanted.take(j + 1).drop_last() =~= wanted.take(j as int));
                }
                self.add_point_dest_var(src_piece, src_point, dests[j]);
                j = j + 1;
            }
            proof {
                assert(wanted.take(wanted.len() as int) =~= wanted);
            }
            i = i + 1;
        }
        proof {
            crate::meaning::lemma_point_dest_vars(&puzzle, before, puzzle.pieces());
        }
    }

    /// Adds "exactly one literal of `vars` is true", where the clauses fit
    /// and there is room for the counter.
    fn one_hot(&mut self, vars: &Vec<Literal>)
        requires
            old(self).wf(),
            all_within(vars@, old(self)@.formula.num_vars),
        ensures
            final(self).wf(),
            *final(self).puzzle() == *old(self).puzzle(),
            final(self)@ == old(self)@.one_hot(vars@),
            old(self)@.formula.grows_to(final(self)@.formula),
    {
        proof {
            let f = self@.formula;
            assert(f.clauses.take(f.clauses.len() as int) =~= f.clauses);
        }
        if self.status != Status::Building {
            return ;
        }
        let room: usize = (MAX_VARIABLES - self.sat.num_vars()) as usize;
        if vars.len() > 1 && room / 2 < vars.len() {
            self.fail(Status::OutOfVariables);
            return ;
        }
        let added = self.sat.try_exact_count_clause(1, vars.as_slice());
        if !added {
            self.status = Status::Contradiction;
        }
        proof {
            self.sat.lemma_view_wf();
        }
    }

    /// The destination variables of `src`, in order of the destination.
    fn dest_row(&self, src: PointKey) -> (vars: Vec<Literal>)
        requires
            self.wf(),
        ensures
            vars@ == row_vars(self@.point_dest, src.0 as nat, 2 * self.puzzle().edges()),
            all_within(vars@, self@.formula.num_vars),
    {
        let points = puzzle_points(&self.puzzle);
        let mut vars: Vec<Literal> = Vec::new();
        let mut i: usize = 0;
        while i < points.len()
            invariant
                i <= points.len(),
                self.wf(),
                points@.len() == 2 * self.puzzle.edges(),
                forall|k: int| 0 <= k < points@.len() ==> (#[trigger] points@[k]).0 == k,
                vars@ == row_vars(self@.point_dest, src.0 as nat, i as nat),
                all_within(vars@, self@.formula.num_vars),
            decreases points.len() - i,
        {
            match self.point_dest_vars.get(src.0, points[i].0) {
                Some(var) => {
                    vars.push(var);
                },
                None => {},
            }
            i = i + 1;
        }
        vars
    }

    /// The variables that send some point to `dest`, in order of that point.
    fn dest_col(&self, dest: PointKey) -> (vars: Vec<Literal>)
        requires
            self.wf(),
        ensures
            vars@ == col_vars(self@.point_dest, dest.0 as nat, 2 * self.puzzle().edges()),
            all_within(vars@, self@.formula.num_vars),
    {
        let points = puzzle_points(&self.puzzle);
        let mut vars: Vec<Literal> = Vec::new();
        let mut i: usize = 0;
        while i < points.len()
            invariant
                i <= points.len(),
                self.wf(),
                points@.len() == 2 * self.puzzle.edges(),
                forall|k: int| 0 <= k < points@.len() ==> (#[trigger] points@[k]).0 == k,
                vars@ == col_vars(self@.point_dest, dest.0 as nat, i as nat),
                all_within(vars@, self@.formula.num_vars),
            decreases points.len() - i,
        {
            match self.point_dest_vars.get(points[i].0, dest.0) {
                Some(var) => {
                    vars.push(var);
                },
                None => {},
            }
            i = i + 1;
        }
        vars
    }

    /// The matching variables of `edge`, in order of the other edge.
    fn matching_row(&self, edge: EdgeKey) -> (vars: Vec<Literal>)
        requires
            self.wf(),
        ensures
            vars@ == pair_vars(self@.matching, edge.0 as nat, self.puzzle().edges()),
            all_within(vars@, self@.formula.num_vars),
    {
        let edges = puzzle_edges(&self.puzzle);
        let mut vars: Vec<Literal> = Vec::new();
        let mut i: usize = 0;
        while i < edges.len()
            invariant
                i <= edges.len(),
                self.wf(),
                edges@.len() == self.puzzle.edges(),
                forall|k: int| 0 <= k < edges@.len() ==> (#[trigger] edges@[k]).0 == k,
                vars@ == pair_vars(self@.matching, edge.0 as nat, i as nat),
                all_within(vars@, self@.formula.num_vars),
            decreases edges.len() - i,
        {
            match self.edge_matching_vars.get(edge.0, edges[i].0) {
                Some(var) => {
                    vars.push(var);
                },
                None => {},
            }
            i = i + 1;
        }
        vars
    }

    /// Each piece goes to exactly one place: of the destination variables of
    /// its anchor exactly one is true.
    pub fn add_one_hot_point_dest(&mut self)
        requires
            old(self).wf(),
        ensures
            final(self).wf(),
            *final(self).puzzle() == *old(self).puzzle(),
            final(self)@ == old(self)@.one_hot_point_dest(
                old(self).puzzle(),
                old(self).puzzle().pieces(),
            ),
            old(self)@.formula.grows_to(final(self)@.formula),
            old(self)@.same_tables(final(self)@),
            final(self)@.status == Status::Building ==> forall|m: Assignment| #[trigger]
                final(self)@.formula.holds(m) ==> old(self)@.formula.holds(m) && forall|piece: nat|
                    piece < old(self).puzzle().pieces() ==> #[trigger] final(self)@.one_dest(
                        old(self).puzzle(),
                        piece,
                        m,
                    ),
    {
        let ghost before = self@;
        let ghost puzzle = self.puzzle;
        let pieces = puzzle_pieces(&self.puzzle);
        proof {
            assert(before.formula.clauses.take(before.formula.clauses.len() as int)
                =~= before.formula.clauses);
        }
        let mut i: usize = 0;
        while i < pieces.len()
            invariant
                i <= pieces.len(),
                self.wf(),
                self.puzzle == puzzle,
                pieces@.len() == puzzle.pieces(),
                forall|k: int| 0 <= k < pieces@.len() ==> (#[trigger] pieces@[k]).0 == k,
                self@ == before.one_hot_point_dest(&puzzle, i as nat),
                before.formula.grows_to(self@.formula),
            decreases pieces.len() - i,
        {
            let ghost now = self@.formula;
            let src_point = self.puzzle.arbitrary_point_on_piece(pieces[i]);
            let dest_vars = self.dest_row(src_point);
            self.one_hot(&dest_vars);
            proof {
                lemma_grows_trans(before.formula, now, self@.formula);
            }
            i = i + 1;
        }
        proof {
            assert forall|m: Assignment| #[trigger]
                self@.formula.holds(m) && self@.status == Status::Building implies before.formula.holds(
                m,
            ) && forall|piece: nat|
                piece < puzzle.pieces() ==> #[trigger] self@.one_dest(&puzzle, piece, m) by {
                crate::meaning::lemma_one_hot_point_dest(&puzzle, before, puzzle.pieces(), m);
                assert forall|piece: nat| piece < puzzle.pieces() implies #[trigger] self@.one_dest(
                    &puzzle,
                    piece,
                    m,
                ) by {
                    assert(before.one_dest(&puzzle, piece, m));
                }
            }
            crate::meaning::lemma_one_hot_point_dest(&puzzle, before, puzzle.pieces(), Set::empty());
        }
    }

    /// Each place takes exactly one piece: of the variables that send some
    /// point to the anchor of the piece at that place exactly one is true.
    pub fn add_one_hot_point_src(&mut self)
        requires
            old(self).wf(),
        ensures
            final(self).wf(),
            *final(self).puzzle() == *old(self).puzzle(),
            final(self)@ == old(self)@.one_hot_point_src(
                old(self).puzzle(),
                old(self).puzzle().pieces(),
            ),
            old(self)@.formula.grows_to(final(self)@.formula),
            old(self)@.same_tables(final(self)@),
            final(self)@.status == Status::Building ==> forall|m: Assignment| #[trigger]
                final(self)@.formula.holds(m) ==> old(self)@.formula.holds(m) && forall|piece: nat|
                    piece < old(self).puzzle().pieces() ==> #[trigger] final(self)@.one_src(
                        old(self).puzzle(),
                        piece,
                        m,
                    ),
    {
        let ghost before = self@;
        let ghost puzzle = self.puzzle;
        let pieces = puzzle_pieces(&self.puzzle);
        proof {
            assert(before.formula.clauses.take(before.formula.clauses.len() as int)
                =~= before.formula.clauses);
        }
        let mut i: usize = 0;
        while i < pieces.len()
            invariant
                i <= pieces.len(),
                self.wf(),
                self.puzzle == puzzle,
                pieces@.len() == puzzle.pieces(),
                forall|k: int| 0 <= k < pieces@.len() ==> (#[trigger] pieces@[k]).0 == k,
                self@ == before.one_hot_point_src(&puzzle, i as nat),
                before.formula.grows_to(self@.formula),
            decreases pieces.len() - i,
        {
            let ghost now = self@.formula;
            let dest_point = self.puzzle.arbitrary_point_on_piece(pieces[i]);
            let src_vars = self.dest_col(dest_point);
            self.one_hot(&src_vars);
            proof {
                lemma_grows_trans(before.formula, now, self@.formula);
            }
            i = i + 1;
        }
        proof {
            assert forall|m: Assignment| #[trigger]
                self@.formula.holds(m) && self@.status == Status::Building implies before.formula.holds(
                m,
            ) && forall|piece: nat|
                piece < puzzle.pieces() ==> #[trigger] self@.one_src(&puzzle, piece, m) by {
                crate::meaning::lemma_one_hot_point_src(&puzzle, before, puzzle.pieces(), m);
                assert forall|piece: nat| piece < puzzle.pieces() implies #[trigger] self@.one_src(
                    &puzzle,
                    piece,
                    m,
                ) by {
                    assert(before.one_src(&puzzle, piece, m));
                }
            }
            crate::meaning::lemma_one_hot_point_src(&puzzle, before, puzzle.pieces(), Set::empty());
        }
    }

    /// Each edge has the shape of exactly one other edge: of the matching
    /// variables of an edge exactly one is true.
    pub fn add_one_hot_edge_matching(&mut self)
        requires
            old(self).wf(),
        ensures
            final(self).wf(),
            *final(self).puzzle() == *old(self).puzzle(),
            final(self)@ == old(self)@.one_hot_edge_matching(
                old(self).puzzle(),
                old(self).puzzle().edges(),
            ),
            old(self)@.formula.grows_to(final(self)@.formula),
            old(self)@.same_tables(final(self)@),
            final(self)@.status == Status::Building ==> forall|m: Assignment| #[trigger]
                final(self)@.formula.holds(m) ==> old(self)@.formula.holds(m) && forall|edge: nat|
                    edge < old(self).puzzle().edges() ==> #[trigger] final(self)@.one_match(
                        old(self).puzzle(),
                        edge,
                        m,
                    ),
    {
        let ghost before = self@;
        let ghost puzzle = self.puzzle;
        let edges = puzzle_edges(&self.puzzle);
        proof {
            assert(before.formula.clauses.take(before.formula.clauses.len() as int)
                =~= before.formula.clauses);
        }
        let mut i: usize = 0;
        while i < edges.len()
            invariant
                i <= edges.len(),
                self.wf(),
                self.puzzle == puzzle,
                edges@.len() == puzzle.edges(),
                forall|k: int| 0 <= k < edges@.len() ==> (#[trigger] edges@[k]).0 == k,
                self@ == before.one_hot_edge_matching(&puzzle, i as nat),
                before.formula.grows_to(self@.formula),
            decreases edges.len() - i,
        {
            let ghost now = self@.formula;
            let matching_vars = self.matching_row(edges[i]);
            self.one_hot(&matching_vars);
            proof {
                lemma_grows_trans(before.formula, now, self@.formula);
            }
            i = i + 1;
        }
        proof {
            assert forall|m: Assignment| #[trigger]
                self@.formula.holds(m) && self@.status == Status::Building implies before.formula.holds(
                m,
            ) && forall|edge: nat|
                edge < puzzle.edges() ==> #[trigger] self@.one_match(&puzzle, edge, m) by {
                crate::meaning::lemma_one_hot_edge_matching(&puzzle, before, puzzle.edges(), m);
                assert forall|edge: nat| edge < puzzle.edges() implies #[trigger] self@.one_match(
                    &puzzle,
                    edge,
                    m,
                ) by {
                    assert(before.one_match(&puzzle, edge, m));
                }
            }
            crate::meaning::lemma_one_hot_edge_matching(&puzzle, before, puzzle.edges(), Set::empty());
        }
    }

    /// Makes a literal stand for "the points `a` and `b` come to lie across
    /// an edge": for each place that `a` can go to while `b` can go to the
    /// point across from it, a conjunction of the two destination variables,
    /// and the disjunction of them all.
    fn add_point_dest_adjacent_var(&mut self, a: PointKey, b: PointKey)
        requires
            old(self).wf(),
            a.0 < 2 * old(self).puzzle().edges(),
            b.0 < 2 * old(self).puzzle().edges(),
        ensures
            final(self).wf(),
            *final(self).puzzle() == *old(self).puzzle(),
            final(self)@ == old(self)@.adjacent_var(old(self).puzzle(), a.0 as nat, b.0 as nat),
            old(self)@.formula.grows_to(final(self)@.formula),
    {
        let ghost before = self@;
        let ghost puzzle = self.puzzle;
        let points = puzzle_points(&self.puzzle);
        let mut terms: Vec<Literal> = Vec::new();
        proof {
            assert(before.formula.clauses.take(before.formula.clauses.len() as int)
                =~= before.formula.clauses);
        }
        let mut i: usize = 0;
        while i < points.len()
            invariant
                i <= points.len(),
                self.wf(),
                self.puzzle == puzzle,
                points@.len() == 2 * puzzle.edges(),
                forall|k: int| 0 <= k < points@.len() ==> (#[trigger] points@[k]).0 == k,
                (terms@, self@) == before.adjacent_terms(&puzzle, a.0 as nat, b.0 as nat, i as nat),
                all_within(terms@, self@.formula.num_vars),
                before.formula.grows_to(self@.formula),
            decreases points.len() - i,
        {
            let dest_a = points[i];
            let dest_b = self.puzzle.other_point_on_edge(dest_a);
            if self.status == Status::Building {
                match (self.point_dest_vars.get(a.0, dest_a.0), self.point_dest_vars.get(
                    b.0,
                    dest_b.0,
                )) {
                    (Some(var_a), Some(var_b)) => {
                        if self.sat.num_vars() >= MAX_VARIABLES {
                            self.fail(Status::OutOfVariables);
                        } else {
                            let ghost now = self@;
                            let pair = [var_a, var_b];
                            proof {
                                broadcast use vstd::array::group_array_axioms;

                            }
                            let both = self.sat.and_var(pair.as_slice());
                            proof {
                                self.sat.lemma_view_wf();
                                lemma_grows_trans(before.formula, now.formula, self@.formula);
                            }
                            terms.push(both);
                        }
                    },
                    _ => {},
                }
            }
            i = i + 1;
        }
        if self.status != Status::Building {
            return ;
        }
        if self.sat.num_vars() >= MAX_VARIABLES {
            self.fail(Status::OutOfVariables);
            return ;
        }
        let ghost now = self@;
        let any = self.sat.or_var(terms.as_slice());
        proof {
            self.sat.lemma_view_wf();
            lemma_grows_trans(before.formula, now.formula, self@.formula);
        }
        match self.point_dest_adjacent_vars.get(a.0, b.0) {
            Some(_) => {
                self.status = Status::KeyMetTwice;
            },
            None => {
                self.point_dest_adjacent_vars.put(a.0, b.0, any);
            },
        }
    }

    /// Makes a literal stand, for every two points, for "they come to lie
    /// across an edge from each other".
    pub fn add_point_dest_adjacent_vars(&mut self)
        requires
            old(self).wf(),
        ensures
            final(self).wf(),
            *final(self).puzzle() == *old(self).puzzle(),
            final(self)@ == old(self)@.point_dest_adjacent_vars(old(self).puzzle()),
            old(self)@.formula.grows_to(final(self)@.formula),
            final(self)@.point_dest == old(self)@.point_dest,
            final(self)@.matching == old(self)@.matching,
            final(self)@.status == Status::Building ==> forall|x: nat, y: nat|
                y < x < 2 * old(self).puzzle().edges() ==> #[trigger] final(self)@.adjacent.contains_key(
                    (y, x),
                ),
            final(self)@.status == Status::Building ==> forall|x: nat, y: nat, m: Assignment|
                y < x < 2 * old(self).puzzle().edges() && final(self)@.formula.holds(m) ==> ((
                #[trigger] final(self)@.adjacent[(y, x)].value(m)) <==> lies_across(
                    old(self).puzzle(),
                    old(self)@.point_dest,
                    x,
                    y,
                    m,
                    2 * old(self).puzzle().edges(),
                )),
    {
        let ghost before = self@;
        let ghost puzzle = self.puzzle;
        let ghost wanted = pairs_below(2 * puzzle.edges());
        let pairs = puzzle_point_pairs(&self.puzzle);
        proof {
            assert(before.formula.clauses.take(before.formula.clauses.len() as int)
                =~= before.formula.clauses);
            crate::puzzle::lemma_pairs_below(2 * puzzle.edges());
        }
        let mut i: usize = 0;
        while i < pairs.len()
            invariant
                i <= pairs.len(),
                self.wf(),
                self.puzzle == puzzle,
                wanted == pairs_below(2 * puzzle.edges()),
                pairs@.len() == wanted.len(),
                forall|k: int|
                    0 <= k < pairs@.len() ==> ((#[trigger] pairs@[k]).0.0 as nat, pairs@[k].1.0 as nat)
                        == wanted[k],
                forall|k: int|
                    0 <= k < wanted.len() ==> (#[trigger] wanted[k]).1 < wanted[k].0 < 2
                        * puzzle.edges(),
                self@ == before.adjacent_vars(&puzzle, wanted.take(i as int)),
                before.formula.grows_to(self@.formula),
            decreases pairs.len() - i,
        {
            let ghost now = self@.formula;
            let (src_point_a, src_point_b) = pairs[i];
            proof {
                assert(wanted.take(i + 1).drop_last() =~= wanted.take(i as int));
            }
            self.add_point_dest_adjacent_var(src_point_a, src_point_b);
            proof {
                lemma_grows_trans(before.formula, now, self@.formula);
            }
            i = i + 1;
        }
        proof {
            assert(wanted.take(wanted.len() as int) =~= wanted);
        }
        proof {
            crate::meaning::lemma_adjacent_vars(&puzzle, before, wanted, Set::empty());
            if self@.status == Status::Building {
                assert forall|x: nat, y: nat| y < x < 2 * puzzle.edges() implies #[trigger] self@.adjacent.contains_key(
                (y, x)) by {
                    lemma_pairs_below_has(2 * puzzle.edges(), x, y);
                    let i = choose|i: int| 0 <= i < wanted.len() && wanted[i] == (x, y);
                    assert(ordered(wanted[i].0, wanted[i].1) == (y, x));
                }
                assert forall|x: nat, y: nat, m: Assignment|
                    y < x < 2 * puzzle.edges() && self@.formula.holds(m) implies ((
                    #[trigger] self@.adjacent[(y, x)].value(m)) <==> lies_across(
                        &puzzle,
                        before.point_dest,
                        x,
                        y,
                        m,
                        2 * puzzle.edges(),
                    )) by {
                    crate::meaning::lemma_adjacent_vars(&puzzle, before, wanted, m);
                    lemma_pairs_below_has(2 * puzzle.edges(), x, y);
                    let i = choose|i: int| 0 <= i < wanted.len() && wanted[i] == (x, y);
                    assert(ordered(wanted[i].0, wanted[i].1) == (y, x));
                }
            }
        }
    }

    /// Every seam is cut: the two points of no edge stay across from each
    /// other.
    pub fn add_point_dest_adjacent_not_same(&mut self)
        requires
            old(self).wf(),
        ensures
            final(self).wf(),
            *final(self).puzzle() == *old(self).puzzle(),
            final(self)@ == old(self)@.point_dest_adjacent_not_same(
                old(self).puzzle(),
                old(self).puzzle().edges(),
            ),
            old(self)@.formula.grows_to(final(self)@.formula),
            old(self)@.same_tables(final(self)@),
            final(self)@.status == Status::Building ==> forall|m: Assignment| #[trigger]
                final(self)@.formula.holds(m) ==> old(self)@.formula.holds(m) && forall|edge: nat|
                    edge < old(self).puzzle().edges() ==> !final(self)@.adjacent[#[trigger] ordered(
                        old(self).puzzle().edge_anchor(edge),
                        old(self).puzzle().mate(old(self).puzzle().edge_anchor(edge)),
                    )].value(m),
    {
        let ghost before = self@;
        let ghost puzzle = self.puzzle;
        let edges = puzzle_edges(&self.puzzle);
        proof {
            assert(before.formula.clauses.take(before.formula.clauses.len() as int)
                =~= before.formula.clauses);
        }
        let mut i: usize = 0;
        while i < edges.len()
            invariant
                i <= edges.len(),
                self.wf(),
                self.puzzle == puzzle,
                edges@.len() == puzzle.edges(),
                forall|k: int| 0 <= k < edges@.len() ==> (#[trigger] edges@[k]).0 == k,
                self@ == before.point_dest_adjacent_not_same(&puzzle, i as nat),
                before.formula.grows_to(self@.formula),
            decreases edges.len() - i,
        {
            let ghost now = self@;
            proof {
                self.puzzle.lemma_edge_anchor(i as nat);
            }
            let point_1 = self.puzzle.arbitrary_point_on_edge(edges[i]);
            let point_2 = self.puzzle.other_point_on_edge(point_1);
            if self.status == Status::Building {
                match self.point_dest_adjacent_vars.get(point_1.0, point_2.0) {
                    None => {
                        self.fail(Status::MissingVar);
                    },
                    Some(stays_adjacent_var) => {
                        if stays_adjacent_var == Literal::True {
                            self.fail(Status::Contradiction);
                        } else {
                            proof {
                                lemma_with_clause(
                                    now.formula,
                                    seq![stays_adjacent_var.negation()],
                                    Set::empty(),
                                );
                            }
                            self.sat.not_clause(stays_adjacent_var);
                            proof {
                                lemma_grows_trans(before.formula, now.formula, self@.formula);
                            }
                        }
                    },
                }
            }
            i = i + 1;
        }
        proof {
            assert forall|m: Assignment| #[trigger]
                self@.formula.holds(m) && self@.status == Status::Building implies before.formula.holds(
                m,
            ) && forall|edge: nat|
                edge < puzzle.edges() ==> !self@.adjacent[#[trigger] ordered(
                    puzzle.edge_anchor(edge),
                    puzzle.mate(puzzle.edge_anchor(edge)),
                )].value(m) by {
                crate::meaning::lemma_not_same(&puzzle, before, puzzle.edges(), m);
            }
            crate::meaning::lemma_not_same(&puzzle, before, puzzle.edges(), Set::empty());
        }
    }

    /// Makes a literal stand for "the edges `a` and `b` have the same
    /// shape", where they can have.
    fn add_edge_matching_var(&mut self, edge_a: EdgeKey, edge_b: EdgeKey)
        requires
            old(self).wf(),
            edge_a.0 < old(self).puzzle().edges(),
            edge_b.0 < old(self).puzzle().edges(),
        ensures
            final(self).wf(),
            *final(self).puzzle() == *old(self).puzzle(),
            final(self)@ == old(self)@.edge_matching_var(
                old(self).puzzle(),
                edge_a.0 as nat,
                edge_b.0 as nat,
            ),
            old(self)@.formula.grows_to(final(self)@.formula),
    {
        let ghost before = self@;
        proof {
            assert(before.formula.clauses.take(before.formula.clauses.len() as int)
                =~= before.formula.clauses);
            self.puzzle.lemma_edge_anchor(edge_a.0 as nat);
            self.puzzle.lemma_edge_anchor(edge_b.0 as nat);
        }
        let point_a1 = self.puzzle.arbitrary_point_on_edge(edge_a);
        let point_a2 = self.puzzle.other_point_on_edge(point_a1);
        let point_b1 = self.puzzle.arbitrary_point_on_edge(edge_b);
        let point_b2 = self.puzzle.other_point_on_edge(point_b1);
        let mut matching_vars: Vec<Literal> = Vec::new();
        match self.point_dest_adjacent_vars.get(point_a1.0, point_b1.0) {
            Some(var) => {
                matching_vars.push(var);
            },
            None => {},
        }
        match self.point_dest_adjacent_vars.get(point_a1.0, point_b2.0) {
            Some(var) => {
                matching_vars.push(var);
            },
            None => {},
        }
        match self.point_dest_adjacent_vars.get(point_a2.0, point_b1.0) {
            Some(var) => {
                matching_vars.push(var);
            },
            None => {},
        }
        match self.point_dest_adjacent_vars.get(point_a2.0, point_b2.0) {
            Some(var) => {
                matching_vars.push(var);
            },
            None => {},
        }
        assert(matching_vars@ =~= present(before.adjacent, point_a1.0 as nat, point_b1.0 as nat)
            + present(before.adjacent, point_a1.0 as nat, point_b2.0 as nat) + present(
            before.adjacent,
            point_a2.0 as nat,
            point_b1.0 as nat,
        ) + present(before.adjacent, point_a2.0 as nat, point_b2.0 as nat));
        if self.status != Status::Building || matching_vars.len() == 0 {
            return ;
        }
        if self.sat.num_vars() >= MAX_VARIABLES {
            self.fail(Status::OutOfVariables);
            return ;
        }
        proof {
            assert forall|k: int| 0 <= k < matching_vars@.len() implies (
            #[trigger] matching_vars@[k]).within(before.formula.num_vars) by {}
        }
        let matching_var = self.sat.or_var(matching_vars.as_slice());
        proof {
            self.sat.lemma_view_wf();
        }
        if matching_var == Literal::False {
            return ;
        }
        match self.edge_matching_vars.get(edge_a.0, edge_b.0) {
            Some(_) => {
                self.status = Status::KeyMetTwice;
            },
            None => {
                self.edge_matching_vars.put(edge_a.0, edge_b.0, matching_var);
            },
        }
    }

    /// Makes a literal stand, for every two edges that can have the same
    /// shape, for "they have".
    pub fn add_edge_matching_vars(&mut self)
        requires
            old(self).wf(),
        ensures
            final(self).wf(),
            *final(self).puzzle() == *old(self).puzzle(),
            final(self)@ == old(self)@.edge_matching_vars(old(self).puzzle()),
            old(self)@.formula.grows_to(final(self)@.formula),
            final(self)@.point_dest == old(self)@.point_dest,
            final(self)@.adjacent == old(self)@.adjacent,
            old(self)@.matching == Map::<(nat, nat), Literal>::empty() && final(self)@.status
                == Status::Building ==> forall|x: nat, y: nat, m: Assignment|
                y < x < old(self).puzzle().edges() && final(self)@.formula.holds(m) ==> (
                #[trigger] shapes_match(final(self)@.matching, x, y, m) <==> crate::formula::clause_holds(
                    ways_to_match(old(self).puzzle(), old(self)@.adjacent, x, y),
                    m,
                )),
    {
        let ghost before = self@;
        let ghost puzzle = self.puzzle;
        let ghost wanted = pairs_below(puzzle.edges());
        let pairs = puzzle_edge_pairs(&self.puzzle);
        proof {
            assert(before.formula.clauses.take(before.formula.clauses.len() as int)
                =~= before.formula.clauses);
            crate::puzzle::lemma_pairs_below(puzzle.edges());
        }
        let mut i: usize = 0;
        while i < pairs.len()
            invariant
                i <= pairs.len(),
                self.wf(),
                self.puzzle == puzzle,
                wanted == pairs_below(puzzle.edges()),
                pairs@.len() == wanted.len(),
                forall|k: int|
                    0 <= k < pairs@.len() ==> ((#[trigger] pairs@[k]).0.0 as nat, pairs@[k].1.0 as nat)
                        == wanted[k],
                forall|k: int|
                    0 <= k < wanted.len() ==> (#[trigger] wanted[k]).1 < wanted[k].0
                        < puzzle.edges(),
                self@ == before.matching_vars(&puzzle, wanted.take(i as int)),
                before.formula.grows_to(self@.formula),
            decreases pairs.len() - i,
        {
            let ghost now = self@.formula;
            let (edge_a, edge_b) = pairs[i];
            proof {
                assert(wanted.take(i + 1).drop_last() =~= wanted.take(i as int));
            }
            self.add_edge_matching_var(edge_a, edge_b);
            proof {
                lemma_grows_trans(before.formula, now, self@.formula);
            }
            i = i + 1;
        }
        proof {
            assert(wanted.take(wanted.len() as int) =~= wanted);
        }
        proof {
            if before.matching == Map::<(nat, nat), Literal>::empty() {
                crate::meaning::lemma_pairs_below_keys(puzzle.edges());
                crate::meaning::lemma_matching_vars(&puzzle, before, wanted, Set::empty());
                if self@.status == Status::Building {
                    assert forall|x: nat, y: nat, m: Assignment|
                        y < x < puzzle.edges() && self@.formula.holds(m) implies (
                        #[trigger] shapes_match(self@.matching, x, y, m)
                            <==> crate::formula::clause_holds(
                            ways_to_match(&puzzle, before.adjacent, x, y),
                            m,
                        )) by {
                        crate::meaning::lemma_matching_vars(&puzzle, before, wanted, m);
                        lemma_pairs_below_has(puzzle.edges(), x, y);
                    }
                }
            } else {
                crate::meaning::lemma_matching_vars_tables(&puzzle, before, wanted);
            }
        }
    }

    /// Builds the whole formula: the seven stages in their order.
    pub fn encode(&mut self)
        requires
            old(self).wf(),
        ensures
            final(self).wf(),
            *final(self).puzzle() == *old(self).puzzle(),
            final(self)@ == old(self)@.encoded(old(self).puzzle()),
            old(self)@.formula.grows_to(final(self)@.formula),
            old(self)@ == Encoding::start(old(self).puzzle()) ==> final(self).ready(),
            old(self)@ == Encoding::start(old(self).puzzle()) ==> final(self)@.no_defect(),
    {
        let ghost f0 = self@.formula;
        proof {
            crate::ending::lemma_ending(&self.puzzle);
        }
        self.add_point_dest_vars();
        self.add_one_hot_point_dest();
        let ghost f2 = self@.formula;
        self.add_one_hot_point_src();
        let ghost f3 = self@.formula;
        self.add_point_dest_adjacent_vars();
        let ghost f4 = self@.formula;
        self.add_point_dest_adjacent_not_same();
        let ghost f5 = self@.formula;
        self.add_edge_matching_vars();
        let ghost f6 = self@.formula;
        self.add_one_hot_edge_matching();
        proof {
            lemma_grows_trans(f0, f2, f3);
            lemma_grows_trans(f0, f3, f4);
            lemma_grows_trans(f0, f4, f5);
            lemma_grows_trans(f0, f5, f6);
            lemma_grows_trans(f0, f6, self@.formula);
            let f = self@.formula;
            assert(f.clauses.take(f.clauses.len() as int) =~= f.clauses);
        }
    }

    /// How far the construction has come.
    pub fn status(&self) -> (status: Status)
        ensures
            status == self@.status,
    {
        self.status
    }

    /// The puzzle that is searched.
    pub fn puzzle_ref(&self) -> (puzzle: &P)
        ensures
            puzzle == self.puzzle(),
    {
        &self.puzzle
    }

    /// The literal that stands for "`src` comes to lie on `dest`", if there
    /// is one.
    pub fn point_dest_var(&self, src: PointKey, dest: PointKey) -> (var: Option<Literal>)
        ensures
            var == if self@.point_dest.contains_key((src.0 as nat, dest.0 as nat)) {
                Some(self@.point_dest[(src.0 as nat, dest.0 as nat)])
            } else {
                None
            },
    {
        self.point_dest_vars.get(src.0, dest.0)
    }

    /// The literal that stands for "the edges `a` and `b` have the same
    /// shape", if there is one.
    pub fn edge_matching_var(&self, a: EdgeKey, b: EdgeKey) -> (var: Option<Literal>)
        ensures
            var == if self@.matching.contains_key(ordered(a.0 as nat, b.0 as nat)) {
                Some(self@.matching[ordered(a.0 as nat, b.0 as nat)])
            } else {
                None
            },
    {
        self.edge_matching_vars.get(a.0, b.0)
    }

    /// Gives up the search and hands out the formula.
    pub fn into_sat(self) -> (sat: SatProblem)
        requires
            self.wf(),
        ensures
            sat.wf(),
            sat@ == self@.formula,
    {
        self.sat
    }

    /// Where each piece goes in the doubling that `solution` shows: for each
    /// piece, its anchor with each point whose destination variable is true.
    pub fn point_dest(&self, solution: &SatSolution) -> (pairs: Vec<(PointKey, PointKey)>)
        requires
            self.wf(),
        ensures
            point_pair_keys(pairs@) == self@.chosen_dests(
                self.puzzle(),
                solution@,
                self.puzzle().pieces(),
            ),
            forall|k: int|
                0 <= k < pairs@.len() ==> (#[trigger] pairs@[k]).0.0 < 2 * self.puzzle().edges()
                    && pairs@[k].1.0 < 2 * self.puzzle().edges(),
    {
        let pieces = puzzle_pieces(&self.puzzle);
        let points = puzzle_points(&self.puzzle);
        let mut pairs: Vec<(PointKey, PointKey)> = Vec::new();
        let ghost table = self@.point_dest;
        let mut i: usize = 0;
        while i < pieces.len()
            invariant
                i <= pieces.len(),
                self.wf(),
                table == self@.point_dest,
                pieces@.len() == self.puzzle.pieces(),
                forall|k: int| 0 <= k < pieces@.len() ==> (#[trigger] pieces@[k]).0 == k,
                points@.len() == 2 * self.puzzle.edges(),
                forall|k: int| 0 <= k < points@.len() ==> (#[trigger] points@[k]).0 == k,
                point_pair_keys(pairs@) == self@.chosen_dests(&self.puzzle, solution@, i as nat),
                forall|k: int|
                    0 <= k < pairs@.len() ==> (#[trigger] pairs@[k]).0.0 < 2 * self.puzzle.edges()
                        && pairs@[k].1.0 < 2 * self.puzzle.edges(),
            decreases pieces.len() - i,
        {
            proof {
                self.puzzle.lemma_anchor(i as nat);
            }
            let src_point = self.puzzle.arbitrary_point_on_piece(pieces[i]);
            let ghost done = point_pair_keys(pairs@);
            let mut j: usize = 0;
            while j < points.len()
                invariant
                    j <= points.len(),
                    self.wf(),
                    table == self@.point_dest,
                    points@.len() == 2 * self.puzzle.edges(),
                    forall|k: int| 0 <= k < points@.len() ==> (#[trigger] points@[k]).0 == k,
                    point_pair_keys(pairs@) == done + chosen_in_row(
                        table,
                        solution@,
                        src_point.0 as nat,
                        j as nat,
                    ),
                    src_point.0 < 2 * self.puzzle.edges(),
                    forall|k: int|
                        0 <= k < pairs@.len() ==> (#[trigger] pairs@[k]).0.0 < 2
                            * self.puzzle.edges() && pairs@[k].1.0 < 2 * self.puzzle.edges(),
                decreases points.len() - j,
            {
                let dest_point = points[j];
                match self.point_dest_vars.get(src_point.0, dest_point.0) {
                    Some(var) => {
                        if solution.get(var) {
                            proof {
                                let row = chosen_in_row(
                                    table,
                                    solution@,
                                    src_point.0 as nat,
                                    j as nat,
                                );
                                assert(point_pair_keys(pairs@.push((src_point, dest_point))) =~= (
                                done + row).push((src_point.0 as nat, j as nat)));
                            }
                            pairs.push((src_point, dest_point));
                        }
                    },
                    None => {},
                }
                j = j + 1;
            }
            i = i + 1;
        }
        pairs
    }

    /// Which edges have the same shape in the doubling that `solution`
    /// shows: each pair once, the smaller key first, in ascending order.
    pub fn edge_matching(&self, solution: &SatSolution) -> (pairs: Vec<(EdgeKey, EdgeKey)>)
        requires
            self.wf(),
        ensures
            forall|i: int, j: int|
                0 <= i < j < pairs@.len() ==> pair_le(
                    ((#[trigger] pairs@[i]).0.0, pairs@[i].1.0),
                    ((#[trigger] pairs@[j]).0.0, pairs@[j].1.0),
                ) && pairs@[i] != pairs@[j],
            forall|x: usize, y: usize|
                #![trigger pairs@.contains((EdgeKey(x), EdgeKey(y)))]
                pairs@.contains((EdgeKey(x), EdgeKey(y))) <==> x < y < self.puzzle().edges()
                    && self@.matched(solution@, x as nat, y as nat),
    {
        let all = puzzle_edge_pairs(&self.puzzle);
        let ghost n = self.puzzle.edges();
        let ghost wanted = pairs_below(n);
        let mut found: Vec<(usize, usize)> = Vec::new();
        proof {
            lemma_pairs_below(n);
            lemma_pairs_below_distinct(n);
        }
        let mut i: usize = 0;
        while i < all.len()
            invariant
                i <= all.len(),
                self.wf(),
                n == self.puzzle.edges(),
                wanted == pairs_below(n),
                found@.no_duplicates(),
                forall|i: int, j: int|
                    0 <= i < j < wanted.len() ==> #[trigger] wanted[i] != #[trigger] wanted[j],
                all@.len() == wanted.len(),
                forall|k: int|
                    0 <= k < all@.len() ==> ((#[trigger] all@[k]).0.0 as nat, all@[k].1.0 as nat)
                        == wanted[k],
                forall|k: int| 0 <= k < wanted.len() ==> (#[trigger] wanted[k]).1 < wanted[k].0 < n,
                forall|x: usize, y: usize|
                    #![trigger found@.contains((x, y))]
                    found@.contains((x, y)) <==> wanted.take(i as int).contains(
                        (y as nat, x as nat),
                    ) && self@.matched(solution@, x as nat, y as nat),
            decreases all.len() - i,
        {
            let (edge_a, edge_b) = all[i];
            let ghost before = found@;
            let mut add = false;
            match self.edge_matching_vars.get(edge_a.0, edge_b.0) {
                Some(var) => {
                    if solution.get(var) {
                        add = true;
                    }
                },
                None => {},
            }
            if add {
                proof {
                    if before.contains((edge_b.0, edge_a.0)) {
                        let part = wanted.take(i as int);
                        let m = choose|m: int| 0 <= m < part.len() && part[m] == wanted[i as int];
                    }
                }
                found.push((edge_b.0, edge_a.0));
            }
            proof {
                let now = wanted.take(i + 1);
                let old_part = wanted.take(i as int);
                assert forall|x: usize, y: usize|
                    #![trigger found@.contains((x, y))]
                    found@.contains((x, y)) <==> now.contains((y as nat, x as nat))
                        && self@.matched(solution@, x as nat, y as nat) by {
                    if found@.contains((x, y)) {
                        let k = choose|k: int| 0 <= k < found@.len() && found@[k] == (x, y);
                        if k < before.len() {
                            assert(before.contains((x, y)));
                            let m = choose|m: int|
                                0 <= m < old_part.len() && old_part[m] == (y as nat, x as nat);
                        } else {
                            assert(now[i as int] == (y as nat, x as nat));
                        }
                    }
                    if now.contains((y as nat, x as nat)) && self@.matched(
                        solution@,
                        x as nat,
                        y as nat,
                    ) {
                        let m = choose|m: int| 0 <= m < now.len() && now[m] == (y as nat, x as nat);
                        if m < i {
                            assert(before.contains((x, y)));
                            let k = choose|k: int| 0 <= k < before.len() && before[k] == (x, y);
                            assert(found@[k] == (x, y));
                        } else {
                            assert(found@[found@.len() - 1] == (x, y));
                        }
                    }
                }
            }
            i = i + 1;
        }
        proof {
            assert(wanted.take(wanted.len() as int) =~= wanted);
        }
        let ghost unsorted = found@;
        let sorted = sorted_pairs(found);
        proof {
            unsorted.to_multiset_ensures();
            sorted@.to_multiset_ensures();
            unsorted.lemma_multiset_has_no_duplicates();
            sorted@.lemma_multiset_has_no_duplicates_conv();
        }
        let mut pairs: Vec<(EdgeKey, EdgeKey)> = Vec::new();
        let mut k: usize = 0;
        while k < sorted.len()
            invariant
                k <= sorted.len(),
                pairs@.len() == k,
                forall|m: int|
                    0 <= m < k ==> (#[trigger] pairs@[m]) == (
                        EdgeKey(sorted@[m].0),
                        EdgeKey(sorted@[m].1),
                    ),
            decreases sorted.len() - k,
        {
            let (x, y) = sorted[k];
            pairs.push((EdgeKey(x), EdgeKey(y)));
            k = k + 1;
        }
        proof {
            assert forall|x: usize, y: usize|
                #![trigger pairs@.contains((EdgeKey(x), EdgeKey(y)))]
                pairs@.contains((EdgeKey(x), EdgeKey(y))) <==> x < y < n && self@.matched(
                    solution@,
                    x as nat,
                    y as nat,
                ) by {
                assert(sorted@.contains((x, y)) <==> unsorted.contains((x, y))) by {
                    assert(sorted@.to_multiset().count((x, y)) == unsorted.to_multiset().count(
                        (x, y),
                    ));
                }
                if pairs@.contains((EdgeKey(x), EdgeKey(y))) {
                    let m = choose|m: int|
                        0 <= m < pairs@.len() && pairs@[m] == (EdgeKey(x), EdgeKey(y));
                }
                if x < y < n && self@.matched(solution@, x as nat, y as nat) {
                    lemma_pairs_below_has(n, y as nat, x as nat);
                    let m = choose|m: int| 0 <= m < sorted@.len() && sorted@[m] == (x, y);
                    assert(pairs@[m] == (EdgeKey(x), EdgeKey(y)));
                }
            }
        }
        pairs
    }

    /// The destination variables of the anchors of all pieces, piece by piece
    /// and in order of the destination.
    fn anchor_dest_vars(&self) -> (vars: Vec<Literal>)
        requires
            self.wf(),
        ensures
            vars@ == self@.anchor_vars(self.puzzle(), self.puzzle().pieces()),
            all_within(vars@, self@.formula.num_vars),
    {
        let pieces = puzzle_pieces(&self.puzzle);
        let mut vars: Vec<Literal> = Vec::new();
        let mut i: usize = 0;
        while i < pieces.len()
            invariant
                i <= pieces.len(),
                self.wf(),
                pieces@.len() == self.puzzle.pieces(),
                forall|k: int| 0 <= k < pieces@.len() ==> (#[trigger] pieces@[k]).0 == k,
                vars@ == self@.anchor_vars(&self.puzzle, i as nat),
                all_within(vars@, self@.formula.num_vars),
            decreases pieces.len() - i,
        {
            let src_point = self.puzzle.arbitrary_point_on_piece(pieces[i]);
            let row = self.dest_row(src_point);
            let ghost done = vars@;
            let mut j: usize = 0;
            while j < row.len()
                invariant
                    j <= row.len(),
                    vars@ == done + row@.take(j as int),
                    all_within(done, self@.formula.num_vars),
                    all_within(row@, self@.formula.num_vars),
                    all_within(vars@, self@.formula.num_vars),
                decreases row.len() - j,
            {
                vars.push(row[j]);
                j = j + 1;
            }
            i = i + 1;
        }
        vars
    }

    /// Rules out the doubling that `solution` shows: in any further model
    /// some destination variable of an anchor has another value.
    pub fn add_prior_solution(&mut self, solution: &SatSolution)
        requires
            old(self).wf(),
        ensures
            final(self).wf(),
            *final(self).puzzle() == *old(self).puzzle(),
            final(self)@ == old(self)@.blocked(old(self).puzzle(), solution@),
            old(self)@.formula.grows_to(final(self)@.formula),
            old(self).ready() ==> final(self).ready(),
    {
        let ghost before = self@;
        proof {
            if self.ready() {
                let built = Encoding::start(&self.puzzle).encoded(&self.puzzle);
                let after = before.blocked(&self.puzzle, solution@);
                if before.status == Status::Building {
                    lemma_with_clause(
                        before.formula,
                        before.blocking_clause(&self.puzzle, solution@),
                        Set::empty(),
                    );
                }
                assert(before.formula.clauses.take(before.formula.clauses.len() as int)
                    =~= before.formula.clauses);
                lemma_grows_trans(built.formula, before.formula, after.formula);
            }
        }
        proof {
            assert(before.formula.clauses.take(before.formula.clauses.len() as int)
                =~= before.formula.clauses);
        }
        if self.status != Status::Building {
            return ;
        }
        let vars = self.anchor_dest_vars();
        let mut differ_vars: Vec<Literal> = Vec::new();
        let mut i: usize = 0;
        while i < vars.len()
            invariant
                i <= vars.len(),
                differ_vars@ == differing(vars@.take(i as int), solution@),
            decreases vars.len() - i,
        {
            let var = vars[i];
            let differ = if solution.get(var) {
                var.negate()
            } else {
                var
            };
            differ_vars.push(differ);
            i = i + 1;
        }
        proof {
            assert(vars@.take(vars@.len() as int) =~= vars@);
        }
        if is_contradiction(differ_vars.as_slice()) {
            self.fail(Status::Contradiction);
        } else {
            proof {
                lemma_with_clause(before.formula, differ_vars@, Set::empty());
            }
            self.sat.or_clause(differ_vars.as_slice());
        }
    }

    /// Asks for the next doubling. `Ok(Some(..))` carries one that no earlier
    /// answer showed, and rules it out for the answers to come; `Ok(None)`
    /// means that there is no other. The only error is a formula that could
    /// not be built.
    ///
    /// Two doublings count as different when some piece goes to another place
    /// or comes to lie there turned otherwise. Doublings that are turns or
    /// flips of each other are therefore counted one by one, but for what the
    /// orbits of the puzzle rule out: on a grid the upper left corner stays
    /// where it is.
    pub fn next_solution(&mut self) -> (answer: Result<Option<Doubling>, SearchError>)
        requires
            old(self).wf(),
        ensures
            final(self).wf(),
            *final(self).puzzle() == *old(self).puzzle(),
            old(self)@.formula.grows_to(final(self)@.formula),
            old(self).ready() ==> final(self).ready(),
            old(self).ready() ==> (answer matches Ok(Some(doubling)) ==> is_doubling(
                old(self).puzzle(),
                old(self)@.point_dest,
                doubling.model@,
            ) && doubling.point_dest@.len() == old(self).puzzle().pieces() && (forall|piece: int|
                0 <= piece < doubling.point_dest@.len() ==> (
                #[trigger] doubling.point_dest@[piece]).0.0 == old(self).puzzle().anchor(
                    piece as nat,
                ) && old(self).puzzle().exchangeable(
                    doubling.point_dest@[piece].0.0 as nat,
                    doubling.point_dest@[piece].1.0 as nat,
                )) && forall|x: usize, y: usize|
                #![trigger doubling.edge_matching@.contains((EdgeKey(x), EdgeKey(y)))]
                doubling.edge_matching@.contains((EdgeKey(x), EdgeKey(y))) <==> x < y
                    < old(self).puzzle().edges() && touches(
                    old(self).puzzle(),
                    old(self)@.point_dest,
                    x as nat,
                    y as nat,
                    doubling.model@,
                )),
            answer is Ok <==> old(self)@.status == Status::Building || old(self)@.status
                == Status::Contradiction,
            match answer {
                Ok(Some(doubling)) => {
                    &&& old(self)@.status == Status::Building
                    &&& old(self)@.formula.holds(doubling.model@)
                    &&& point_pair_keys(doubling.point_dest@) == old(self)@.chosen_dests(
                        old(self).puzzle(),
                        doubling.model@,
                        old(self).puzzle().pieces(),
                    )
                    &&& forall|i: int, j: int|
                        0 <= i < j < doubling.edge_matching@.len() ==> pair_le(
                            (
                                (#[trigger] doubling.edge_matching@[i]).0.0,
                                doubling.edge_matching@[i].1.0,
                            ),
                            (
                                (#[trigger] doubling.edge_matching@[j]).0.0,
                                doubling.edge_matching@[j].1.0,
                            ),
                        ) && doubling.edge_matching@[i] != doubling.edge_matching@[j]
                    &&& forall|x: usize, y: usize|
                        #![trigger doubling.edge_matching@.contains((EdgeKey(x), EdgeKey(y)))]
                        doubling.edge_matching@.contains((EdgeKey(x), EdgeKey(y))) <==> x < y
                            < old(self).puzzle().edges() && old(self)@.matched(
                            doubling.model@,
                            x as nat,
                            y as nat,
                        )
                    &&& final(self)@ == old(self)@.blocked(old(self).puzzle(), doubling.model@)
                },
                Ok(None) => {
                    &&& final(self)@ == old(self)@
                    &&& old(self)@.status == Status::Contradiction || (old(self)@.status
                        == Status::Building && forall|a: Assignment| !old(self)@.formula.holds(a))
                },
                Err(SearchError::Unbuilt(status)) => {
                    &&& final(self)@ == old(self)@
                    &&& status == old(self)@.status
                    &&& status != Status::Building
                    &&& status != Status::Contradiction
                },
            },
    {
        proof {
            let f = self@.formula;
            assert(f.clauses.take(f.clauses.len() as int) =~= f.clauses);
        }
        match self.status {
            Status::Building => {},
            Status::Contradiction => {
                return Ok(None);
            },
            _ => {
                return Err(SearchError::Unbuilt(self.status));
            },
        }
        let solution = match self.sat.solve() {
            None => {
                return Ok(None);
            },
            Some(solution) => solution,
        };
        proof {
            if self.ready() {
                lemma_follows_doubling(&self.puzzle, self@, solution@);
                assert forall|x: usize, y: usize| x < y < self.puzzle.edges() implies self@.matched(
                    solution@,
                    x as nat,
                    y as nat,
                ) == touches(&self.puzzle, self@.point_dest, x as nat, y as nat, solution@) by {
                    assert(shapes_match(self@.matching, x as nat, y as nat, solution@) == touches(
                        &self.puzzle,
                        self@.point_dest,
                        x as nat,
                        y as nat,
                        solution@,
                    ));
                }
            }
        }
        let point_dest = self.point_dest(&solution);
        proof {
            if self.ready() {
                let pieces = self.puzzle.pieces();
                let chosen = self@.chosen_dests(&self.puzzle, solution@, pieces);
                crate::complete::lemma_chosen_dests(&self.puzzle, self@, solution@, pieces);
                assert forall|piece: int| 0 <= piece < point_dest@.len() implies (
                #[trigger] point_dest@[piece]).0.0 == self.puzzle.anchor(piece as nat)
                    && self.puzzle.exchangeable(
                    point_dest@[piece].0.0 as nat,
                    point_dest@[piece].1.0 as nat,
                ) by {
                    self.lemma_point_dest_keys(chosen[piece].0, chosen[piece].1);
                }
            }
        }
        let edge_matching = self.edge_matching(&solution);
        self.add_prior_solution(&solution);
        Ok(Some(Doubling { point_dest, edge_matching, model: solution }))
    }

    /// The next doubling, with what the answer does to the patterns that are
    /// open.
    fn next_open(&mut self) -> (answer: Option<Doubling>)
        requires
            old(self).wf(),
            old(self)@.status == Status::Building || old(self)@.status == Status::Contradiction,
        ensures
            final(self).wf(),
            *final(self).puzzle() == *old(self).puzzle(),
            old(self).ready() ==> final(self).ready(),
            final(self)@.status == Status::Building || final(self)@.status
                == Status::Contradiction,
            final(self)@.point_dest == old(self)@.point_dest,
            old(self)@.formula.grows_to(final(self)@.formula),
            old(self)@.open_patterns(old(self).puzzle()).finite(),
            match answer {
                Some(doubling) => {
                    let shown = pattern(
                        old(self)@.anchor_vars(old(self).puzzle(), old(self).puzzle().pieces()),
                        doubling.model@,
                    );
                    &&& old(self)@.formula.holds(doubling.model@)
                    &&& old(self).ready() ==> is_doubling(
                        old(self).puzzle(),
                        old(self)@.point_dest,
                        doubling.model@,
                    )
                    &&& old(self)@.open_patterns(old(self).puzzle()).contains(shown)
                    &&& final(self)@.open_patterns(old(self).puzzle()) == old(
                        self,
                    )@.open_patterns(old(self).puzzle()).remove(shown)
                },
                None => {
                    &&& final(self)@ == old(self)@
                    &&& old(self)@.open_patterns(old(self).puzzle()) == Set::<Seq<bool>>::empty()
                },
            },
    {
        let ghost before = *self;
        proof {
            lemma_open_patterns_finite(before.puzzle(), before@);
        }
        match self.next_solution() {
            Ok(Some(doubling)) => {
                proof {
                    lemma_blocked_patterns(before.puzzle(), before@, doubling.model@);
                }
                Some(doubling)
            },
            Ok(None) => {
                proof {
                    assert(before@.open_patterns(before.puzzle()) =~= Set::<Seq<bool>>::empty());
                }
                None
            },
            Err(_) => unreached(),
        }
    }

    /// Asks for one doubling after the other until there is no other, and
    /// returns them in the order in which they were found. The search ends:
    /// every answer closes one of the finitely many patterns of values that
    /// are open to the destination variables of the anchors. There are as
    /// many answers as patterns were open, no two of them with the same
    /// pattern, and none is open afterwards.
    pub fn all_solutions(&mut self) -> (answer: Result<Vec<Doubling>, SearchError>)
        requires
            old(self).wf(),
        ensures
            final(self).wf(),
            *final(self).puzzle() == *old(self).puzzle(),
            old(self).ready() ==> final(self).ready(),
            answer is Ok <==> old(self)@.status == Status::Building || old(self)@.status
                == Status::Contradiction,
            answer matches Err(SearchError::Unbuilt(status)) ==> status == old(self)@.status
                && final(self)@ == old(self)@,
            answer matches Ok(found) ==> {
                let lits = old(self)@.anchor_vars(old(self).puzzle(), old(self).puzzle().pieces());
                &&& found@.len() == old(self)@.open_patterns(old(self).puzzle()).len()
                &&& found@.len() == 0 <==> old(self)@.status == Status::Contradiction || forall|
                    a: Assignment,
                |
                    !old(self)@.formula.holds(a)
                &&& final(self)@.open_patterns(old(self).puzzle()) == Set::<Seq<bool>>::empty()
                &&& forall|i: int|
                    0 <= i < found@.len() ==> old(self)@.formula.holds(
                        (#[trigger] found@[i]).model@,
                    )
                &&& old(self).ready() ==> forall|i: int|
                    0 <= i < found@.len() ==> is_doubling(
                        old(self).puzzle(),
                        old(self)@.point_dest,
                        (#[trigger] found@[i]).model@,
                    )
                &&& forall|i: int, j: int|
                    0 <= i < j < found@.len() ==> pattern(lits, (#[trigger] found@[i]).model@)
                        != pattern(lits, (#[trigger] found@[j]).model@)
            },
    {
        match self.status {
            Status::Building => {},
            Status::Contradiction => {},
            _ => {
                return Err(SearchError::Unbuilt(self.status));
            },
        }
        let ghost start = *self;
        let ghost lits = start@.anchor_vars(start.puzzle(), start.puzzle().pieces());
        let mut found: Vec<Doubling> = Vec::new();
        proof {
            lemma_open_patterns_finite(start.puzzle(), start@);
            lemma_open_patterns_none(start.puzzle(), start@);
            let f = start@.formula;
            assert(f.clauses.take(f.clauses.len() as int) =~= f.clauses);
        }
        loop
            invariant
                start == *old(self),
                old(self)@.status == Status::Building || old(self)@.status
                    == Status::Contradiction,
                start@.open_patterns(start.puzzle()).len() == 0 <==> start@.status
                    == Status::Contradiction || forall|a: Assignment| !start@.formula.holds(a),
                self.wf(),
                *self.puzzle() == *start.puzzle(),
                start.ready() ==> self.ready(),
                self@.status == Status::Building || self@.status == Status::Contradiction,
                self@.point_dest == start@.point_dest,
                start@.formula.grows_to(self@.formula),
                self@.open_patterns(start.puzzle()).finite(),
                found@.len() + self@.open_patterns(start.puzzle()).len() == start@.open_patterns(
                    start.puzzle(),
                ).len(),
                lits == start@.anchor_vars(start.puzzle(), start.puzzle().pieces()),
                forall|i: int|
                    0 <= i < found@.len() ==> start@.formula.holds((#[trigger] found@[i]).model@),
                start.ready() ==> forall|i: int|
                    0 <= i < found@.len() ==> is_doubling(
                        start.puzzle(),
                        start@.point_dest,
                        (#[trigger] found@[i]).model@,
                    ),
                forall|i: int|
                    0 <= i < found@.len() ==> !self@.open_patterns(start.puzzle()).contains(
                        pattern(lits, (#[trigger] found@[i]).model@),
                    ),
                forall|i: int, j: int|
                    0 <= i < j < found@.len() ==> pattern(lits, (#[trigger] found@[i]).model@)
                        != pattern(lits, (#[trigger] found@[j]).model@),
            decreases self@.open_patterns(start.puzzle()).len(),
        {
            let ghost before = *self;
            let ghost earlier = found@;
            proof {
                lemma_anchor_vars_of_table(
                    start.puzzle(),
                    before@,
                    start@,
                    start.puzzle().pieces(),
                );
            }
            match self.next_open() {
                Some(doubling) => {
                    proof {
                        lemma_grows_trans(start@.formula, before@.formula, self@.formula);
                        lemma_grows_holds(start@.formula, before@.formula, doubling.model@);
                        lemma_open_patterns_finite(start.puzzle(), self@);
                    }
                    found.push(doubling);
                    proof {
                        assert forall|i: int| 0 <= i < found@.len() implies start@.formula.holds(
                            (#[trigger] found@[i]).model@,
                        ) && !self@.open_patterns(start.puzzle()).contains(
                            pattern(lits, found@[i].model@),
                        ) by {
                            if i < earlier.len() {
                                assert(found@[i] == earlier[i]);
                            }
                        }
                        assert forall|i: int, j: int| 0 <= i < j < found@.len() implies pattern(
                            lits,
                            (#[trigger] found@[i]).model@,
                        ) != pattern(lits, (#[trigger] found@[j]).model@) by {
                            assert(found@[i] == earlier[i]);
                            if j < earlier.len() {
                                assert(found@[j] == earlier[j]);
                            }
                        }
                        if start.ready() {
                            assert forall|i: int| 0 <= i < found@.len() implies is_doubling(
                                start.puzzle(),
                                start@.point_dest,
                                (#[trigger] found@[i]).model@,
                            ) by {
                                if i < earlier.len() {
                                    assert(found@[i] == earlier[i]);
                                }
                            }
                        }
                    }
                },
                None => {
                    return Ok(found);
                },
            }
        }
    }

    /// The line that says where the pieces go, for printing.
    pub fn point_dest_text(&self, pairs: &Vec<(PointKey, PointKey)>) -> (text: String)
        requires
            self.wf(),
            self.puzzle().printable(),
            forall|k: int|
                0 <= k < pairs@.len() ==> (#[trigger] pairs@[k]).0.0 < 2 * self.puzzle().edges()
                    && pairs@[k].1.0 < 2 * self.puzzle().edges(),
        ensures
            text@ == point_dest_line(self.puzzle(), pairs@),
    {
        broadcast use vstd::array::group_array_axioms;

        let mut items: Vec<Vec<char>> = Vec::new();
        let ghost wanted = pairs@.map_values(
            |pair: (PointKey, PointKey)| point_dest_item(&self.puzzle, pair),
        );
        let mut i: usize = 0;
        while i < pairs.len()
            invariant
                i <= pairs.len(),
                self.wf(),
                self.puzzle.printable(),
                forall|k: int|
                    0 <= k < pairs@.len() ==> (#[trigger] pairs@[k]).0.0 < 2 * self.puzzle.edges()
                        && pairs@[k].1.0 < 2 * self.puzzle.edges(),
                wanted == pairs@.map_values(
                    |pair: (PointKey, PointKey)| point_dest_item(&self.puzzle, pair),
                ),
                views(items@) == wanted.take(i as int),
            decreases pairs.len() - i,
        {
            let (src, dest) = pairs[i];
            let mut item = chars_of(&self.puzzle.format_point(src));
            let arrow = ['=', '>'];
            push_all(&mut item, arrow.as_slice());
            let dest_chars = chars_of(&self.puzzle.format_point(dest));
            push_all(&mut item, dest_chars.as_slice());
            proof {
                assert(views(items@.push(item)) =~= wanted.take(i as int).push(item@));
            }
            items.push(item);
            i = i + 1;
        }
        let mut line: Vec<char> = Vec::new();
        let prefix = ['p', 'i', 'e', 'c', 'e', ' ', 'd', 'e', 's', 't', ':', ' '];
        let blank = [' '];
        push_all(&mut line, prefix.as_slice());
        let list = join_chars(&items, blank.as_slice());
        push_all(&mut line, list.as_slice());
        proof {
            assert(wanted.take(wanted.len() as int) =~= wanted);
            assert(blank@ =~= seq![' ']);
        }
        string_of(&line)
    }

    /// The line that says which edges match, for printing.
    pub fn edge_matching_text(&self, pairs: &Vec<(EdgeKey, EdgeKey)>) -> (text: String)
        requires
            self.wf(),
            self.puzzle().printable(),
            forall|k: int|
                0 <= k < pairs@.len() ==> (#[trigger] pairs@[k]).0.0 < self.puzzle().edges()
                    && pairs@[k].1.0 < self.puzzle().edges(),
        ensures
            text@ == edge_matching_line(self.puzzle(), pairs@),
    {
        broadcast use vstd::array::group_array_axioms;

        let mut items: Vec<Vec<char>> = Vec::new();
        let ghost wanted = pairs@.map_values(
            |pair: (EdgeKey, EdgeKey)| edge_matching_item(&self.puzzle, pair),
        );
        let mut i: usize = 0;
        while i < pairs.len()
            invariant
                i <= pairs.len(),
                self.wf(),
                self.puzzle.printable(),
                forall|k: int|
                    0 <= k < pairs@.len() ==> (#[trigger] pairs@[k]).0.0 < self.puzzle.edges()
                        && pairs@[k].1.0 < self.puzzle.edges(),
                wanted == pairs@.map_values(
                    |pair: (EdgeKey, EdgeKey)| edge_matching_item(&self.puzzle, pair),
                ),
                views(items@) == wanted.take(i as int),
            decreases pairs.len() - i,
        {
            let (edge_a, edge_b) = pairs[i];
            let mut item = chars_of(&self.puzzle.format_edge(edge_a));
            let equals = ['='];
            push_all(&mut item, equals.as_slice());
            let other = chars_of(&self.puzzle.format_edge(edge_b));
            push_all(&mut item, other.as_slice());
            proof {
                assert(equals@ =~= seq!['=']);
                assert(views(items@.push(item)) =~= wanted.take(i as int).push(item@));
            }
            items.push(item);
            i = i + 1;
        }
        let mut line: Vec<char> = Vec::new();
        let prefix = ['e', 'd', 'g', 'e', ' ', 'm', 'a', 't', 'c', 'h', 'i', 'n', 'g', ':', ' '];
        let blank = [' '];
        push_all(&mut line, prefix.as_slice());
        let list = join_chars(&items, blank.as_slice());
        push_all(&mut line, list.as_slice());
        proof {
            assert(wanted.take(wanted.len() as int) =~= wanted);
            assert(blank@ =~= seq![' ']);
        }
        string_of(&line)
    }
}

/// Building the formula is a function of the puzzle: two searches of grids of
/// the same size build the same formula, clause for clause, and the same
/// tables.
pub proof fn lemma_same_size_same_formula(
    first: JigsawDoubler<SquarePuzzle>,
    second: JigsawDoubler<SquarePuzzle>,
)
    requires
        first@ == Encoding::start(first.puzzle()).encoded(first.puzzle()),
        second@ == Encoding::start(second.puzzle()).encoded(second.puzzle()),
        first.puzzle().height() == second.puzzle().height(),
        first.puzzle().width() == second.puzzle().width(),
    ensures
        first@ == second@,
        first@.formula.num_vars == second@.formula.num_vars,
        first@.formula.clauses == second@.formula.clauses,
{
    first.puzzle().lemma_same_size(*second.puzzle());
}

} // verus!
