//! What the search for a doubling asks of the solver, stage by stage: the
//! formula, the tables that say which literal stands for what, and whether
//! anything went wrong on the way.
use vstd::prelude::*;
use crate::formula::{contradiction, Formula};
use crate::literal::{Assignment, Literal, MAX_VARIABLES};
use crate::puzzle::{exchange_points, pairs_below, Puzzle};
use crate::tables::{ordered, KEY_LIMIT};

verus! {

/// How far the construction of the formula has come.
#[derive(Clone, Copy, Debug, PartialEq, Eq, Structural)]
pub enum Status {
    /// Nothing has gone wrong.
    Building,
    /// A constraint came out as a contradiction: the puzzle has no doubling,
    /// and the formula was left without that constraint.
    Contradiction,
    /// The formula would need more variables than there are.
    OutOfVariables,
    /// A pair of keys was given a literal twice: the puzzle does not behave as
    /// a puzzle must.
    KeyMetTwice,
    /// A pair of keys has no literal where it must have one: the puzzle does
    /// not behave as a puzzle must.
    MissingVar,
}

/// The state of the construction.
pub struct Encoding {
    /// The formula built so far.
    pub formula: Formula,
    /// `point_dest[(s, d)]` says that the piece of point `s` goes where the
    /// piece of point `d` is, turned so that `s` comes to lie on `d`.
    pub point_dest: Map<(nat, nat), Literal>,
    /// `adjacent[(a, b)]`, for `a < b`, says that the points `a` and `b` come
    /// to lie across an edge from each other.
    pub adjacent: Map<(nat, nat), Literal>,
    /// `matching[(a, b)]`, for `a < b`, says that the edges `a` and `b` have
    /// the same shape.
    pub matching: Map<(nat, nat), Literal>,
    /// Whether anything went wrong.
    pub status: Status,
}

/// Whether every literal of the table speaks only of the first `num_vars`
/// variables.
pub open spec fn table_within(table: Map<(nat, nat), Literal>, num_vars: nat) -> bool {
    forall|k: (nat, nat)| table.contains_key(k) ==> (#[trigger] table[k]).within(num_vars)
}

/// `table` with `var` entered for the pairs `(s, d)`, `(next(s), next(d))` and
/// so on, `steps` pairs in all, and whether one of them had an entry already.
/// A pair that has one keeps it.
pub open spec fn orbit_put<P: Puzzle>(
    puzzle: &P,
    table: Map<(nat, nat), Literal>,
    s: nat,
    d: nat,
    var: Literal,
    steps: nat,
) -> (Map<(nat, nat), Literal>, bool)
    decreases steps,
{
    if steps == 0 {
        (table, false)
    } else {
        let clash = table.contains_key((s, d));
        let entered = if clash {
            table
        } else {
            table.insert((s, d), var)
        };
        let (rest, later) = orbit_put(
            puzzle,
            entered,
            puzzle.next(s),
            puzzle.next(d),
            var,
            (steps - 1) as nat,
        );
        (rest, clash || later)
    }
}

/// The literals entered for the pairs `(s, d)` with `d` below `n`, in order of
/// `d`.
pub open spec fn row_vars(table: Map<(nat, nat), Literal>, s: nat, n: nat) -> Seq<Literal>
    decreases n,
{
    if n == 0 {
        Seq::empty()
    } else {
        let d = (n - 1) as nat;
        if table.contains_key((s, d)) {
            row_vars(table, s, d).push(table[(s, d)])
        } else {
            row_vars(table, s, d)
        }
    }
}

/// The literals entered for the pairs `(s, d)` with `s` below `n`, in order of
/// `s`.
pub open spec fn col_vars(table: Map<(nat, nat), Literal>, d: nat, n: nat) -> Seq<Literal>
    decreases n,
{
    if n == 0 {
        Seq::empty()
    } else {
        let s = (n - 1) as nat;
        if table.contains_key((s, d)) {
            col_vars(table, d, s).push(table[(s, d)])
        } else {
            col_vars(table, d, s)
        }
    }
}

/// The literals entered for the unordered pairs of `a` and a key below `n`, in
/// order of that key.
pub open spec fn pair_vars(table: Map<(nat, nat), Literal>, a: nat, n: nat) -> Seq<Literal>
    decreases n,
{
    if n == 0 {
        Seq::empty()
    } else {
        let b = (n - 1) as nat;
        if table.contains_key(ordered(a, b)) {
            pair_vars(table, a, b).push(table[ordered(a, b)])
        } else {
            pair_vars(table, a, b)
        }
    }
}

/// The literal entered for the unordered pair of `a` and `b`, as a list of
/// one, or the empty list where there is none.
pub open spec fn present(table: Map<(nat, nat), Literal>, a: nat, b: nat) -> Seq<Literal> {
    if table.contains_key(ordered(a, b)) {
        seq![table[ordered(a, b)]]
    } else {
        Seq::empty()
    }
}

/// The pairs `(s, d)` with `d` below `n` whose literal is true under `a`, in
/// order of `d`.
pub open spec fn chosen_in_row(
    table: Map<(nat, nat), Literal>,
    a: Assignment,
    s: nat,
    n: nat,
) -> Seq<(nat, nat)>
    decreases n,
{
    if n == 0 {
        Seq::empty()
    } else {
        let d = (n - 1) as nat;
        if table.contains_key((s, d)) && table[(s, d)].value(a) {
            chosen_in_row(table, a, s, d).push((s, d))
        } else {
            chosen_in_row(table, a, s, d)
        }
    }
}

/// For each literal of `lits`, the literal of the same variable that is false
/// under `a`: the negation of one that is true, and one that is false as it
/// is.
pub open spec fn differing(lits: Seq<Literal>, a: Assignment) -> Seq<Literal> {
    lits.map_values(
        |l: Literal|
            if l.value(a) {
                l.negation()
            } else {
                l
            },
    )
}

impl Encoding {
    /// The state before anything is built.
    pub open spec fn start<P: Puzzle>(puzzle: &P) -> Encoding {
        Encoding {
            formula: Formula::empty(),
            point_dest: Map::empty(),
            adjacent: Map::empty(),
            matching: Map::empty(),
            status: if 2 * puzzle.edges() < KEY_LIMIT {
                Status::Building
            } else {
                Status::OutOfVariables
            },
        }
    }

    /// The formula is well formed and every literal in a table is one of its
    /// variables or a constant.
    pub open spec fn wf(self) -> bool {
        &&& self.formula.wf()
        &&& table_within(self.point_dest, self.formula.num_vars)
        &&& table_within(self.adjacent, self.formula.num_vars)
        &&& table_within(self.matching, self.formula.num_vars)
    }

    /// Whether the puzzle has behaved as a puzzle must: no pair of keys was
    /// met twice, and none was missed.
    pub open spec fn no_defect(self) -> bool {
        self.status != Status::KeyMetTwice && self.status != Status::MissingVar
    }

    /// This state with the status `status`, unless something went wrong
    /// before: the first thing that goes wrong is the one that is kept.
    pub open spec fn fail(self, status: Status) -> Encoding {
        if self.status == Status::Building {
            Encoding { status, ..self }
        } else {
            self
        }
    }

    /// The state after a fresh variable has been made to stand for "the piece
    /// at `s0` goes where `d` is": entered for `(s0, d)` and for the pairs that
    /// follow it around the two pieces, once for each side.
    pub open spec fn dest_var<P: Puzzle>(self, puzzle: &P, s0: nat, d: nat, sides: nat) -> Encoding {
        if self.status != Status::Building {
            self
        } else if self.formula.num_vars >= MAX_VARIABLES {
            self.fail(Status::OutOfVariables)
        } else {
            let (table, clash) = orbit_put(
                puzzle,
                self.point_dest,
                s0,
                d,
                self.formula.fresh(),
                sides,
            );
            Encoding {
                formula: self.formula.with_var(),
                point_dest: table,
                status: if clash {
                    Status::KeyMetTwice
                } else {
                    Status::Building
                },
                ..self
            }
        }
    }

    /// The state after [`Encoding::dest_var`] for each point of `dests`, first
    /// to last.
    pub open spec fn dest_vars<P: Puzzle>(
        self,
        puzzle: &P,
        s0: nat,
        dests: Seq<nat>,
        sides: nat,
    ) -> Encoding
        decreases dests.len(),
    {
        if dests.len() == 0 {
            self
        } else {
            self.dest_vars(puzzle, s0, dests.drop_last(), sides).dest_var(
                puzzle,
                s0,
                dests.last(),
                sides,
            )
        }
    }

    /// The state after the first `pieces` pieces have been given their
    /// destination variables: one for each point that the anchor of the piece
    /// may be exchanged with.
    pub open spec fn point_dest_vars<P: Puzzle>(self, puzzle: &P, pieces: nat) -> Encoding
        decreases pieces,
    {
        if pieces == 0 {
            self
        } else {
            let piece = (pieces - 1) as nat;
            let s0 = puzzle.anchor(piece);
            self.point_dest_vars(puzzle, piece).dest_vars(
                puzzle,
                s0,
                exchange_points(puzzle, s0),
                puzzle.sides(piece),
            )
        }
    }

    /// The state after "exactly one literal of `vars` is true" has been
    /// added. Where the clauses do not fit, no doubling exists.
    pub open spec fn one_hot(self, vars: Seq<Literal>) -> Encoding {
        if self.status != Status::Building {
            self
        } else if 1 < vars.len() && self.formula.num_vars + 2 * vars.len() > MAX_VARIABLES {
            self.fail(Status::OutOfVariables)
        } else {
            Encoding {
                formula: self.formula.try_exact_count(1, vars),
                status: if self.formula.exact_count_fits(1, vars) {
                    Status::Building
                } else {
                    Status::Contradiction
                },
                ..self
            }
        }
    }

    /// The state after each of the first `pieces` pieces has been told to go
    /// to exactly one place: exactly one destination variable of its anchor
    /// is true.
    pub open spec fn one_hot_point_dest<P: Puzzle>(self, puzzle: &P, pieces: nat) -> Encoding
        decreases pieces,
    {
        if pieces == 0 {
            self
        } else {
            let piece = (pieces - 1) as nat;
            let done = self.one_hot_point_dest(puzzle, piece);
            done.one_hot(row_vars(done.point_dest, puzzle.anchor(piece), 2 * puzzle.edges()))
        }
    }

    /// The state after each of the first `pieces` places has been told to
    /// take exactly one piece: exactly one variable that sends some point to
    /// the anchor of the piece at that place is true.
    pub open spec fn one_hot_point_src<P: Puzzle>(self, puzzle: &P, pieces: nat) -> Encoding
        decreases pieces,
    {
        if pieces == 0 {
            self
        } else {
            let piece = (pieces - 1) as nat;
            let done = self.one_hot_point_src(puzzle, piece);
            done.one_hot(col_vars(done.point_dest, puzzle.anchor(piece), 2 * puzzle.edges()))
        }
    }

    /// The state after each of the first `edges` edges has been told to match
    /// exactly one other edge.
    pub open spec fn one_hot_edge_matching<P: Puzzle>(self, puzzle: &P, edges: nat) -> Encoding
        decreases edges,
    {
        if edges == 0 {
            self
        } else {
            let edge = (edges - 1) as nat;
            let done = self.one_hot_edge_matching(puzzle, edge);
            done.one_hot(pair_vars(done.matching, edge, puzzle.edges()))
        }
    }

    /// The ways in which the points `a` and `b` can come to lie across an
    /// edge, for the places below `n` that `a` can go to: for each place
    /// `dest_a` that `a` can go to while `b` can go to the point across from
    /// it, a literal for "both do", and the state after those literals have
    /// been defined.
    pub open spec fn adjacent_terms<P: Puzzle>(self, puzzle: &P, a: nat, b: nat, n: nat) -> (
        Seq<Literal>,
        Encoding,
    )
        decreases n,
    {
        if n == 0 {
            (Seq::empty(), self)
        } else {
            let dest_a = (n - 1) as nat;
            let dest_b = puzzle.mate(dest_a);
            let (terms, e) = self.adjacent_terms(puzzle, a, b, dest_a);
            if e.status != Status::Building || !e.point_dest.contains_key((a, dest_a))
                || !e.point_dest.contains_key((b, dest_b)) {
                (terms, e)
            } else if e.formula.num_vars >= MAX_VARIABLES {
                (terms, e.fail(Status::OutOfVariables))
            } else {
                let (both, formula) = e.formula.and_var(
                    seq![e.point_dest[(a, dest_a)], e.point_dest[(b, dest_b)]],
                );
                (terms.push(both), Encoding { formula, ..e })
            }
        }
    }

    /// The state after a literal has been made to stand for "the points `a`
    /// and `b` come to lie across an edge": the disjunction of the ways in
    /// which they can.
    pub open spec fn adjacent_var<P: Puzzle>(self, puzzle: &P, a: nat, b: nat) -> Encoding {
        let (terms, e) = self.adjacent_terms(puzzle, a, b, 2 * puzzle.edges());
        if e.status != Status::Building {
            e
        } else if e.formula.num_vars >= MAX_VARIABLES {
            e.fail(Status::OutOfVariables)
        } else {
            let (any, formula) = e.formula.or_var(terms);
            if e.adjacent.contains_key(ordered(a, b)) {
                Encoding { formula, status: Status::KeyMetTwice, ..e }
            } else {
                Encoding { formula, adjacent: e.adjacent.insert(ordered(a, b), any), ..e }
            }
        }
    }

    /// The state after [`Encoding::adjacent_var`] for each pair of `pairs`,
    /// first to last.
    pub open spec fn adjacent_vars<P: Puzzle>(self, puzzle: &P, pairs: Seq<(nat, nat)>) -> Encoding
        decreases pairs.len(),
    {
        if pairs.len() == 0 {
            self
        } else {
            self.adjacent_vars(puzzle, pairs.drop_last()).adjacent_var(
                puzzle,
                pairs.last().0,
                pairs.last().1,
            )
        }
    }

    /// The state after every pair of points has been given its literal.
    pub open spec fn point_dest_adjacent_vars<P: Puzzle>(self, puzzle: &P) -> Encoding {
        self.adjacent_vars(puzzle, pairs_below(2 * puzzle.edges()))
    }

    /// The state after the two points of `edge` have been told not to come to
    /// lie across an edge again.
    pub open spec fn not_same<P: Puzzle>(self, puzzle: &P, edge: nat) -> Encoding {
        let key = ordered(puzzle.edge_anchor(edge), puzzle.mate(puzzle.edge_anchor(edge)));
        if self.status != Status::Building {
            self
        } else if !self.adjacent.contains_key(key) {
            self.fail(Status::MissingVar)
        } else if self.adjacent[key] == Literal::True {
            self.fail(Status::Contradiction)
        } else {
            Encoding { formula: self.formula.with_clause(seq![self.adjacent[key].negation()]), ..self }
        }
    }

    /// The state after the first `edges` edges have been told to be cut:
    /// the two points of none of them stay across from each other.
    pub open spec fn point_dest_adjacent_not_same<P: Puzzle>(self, puzzle: &P, edges: nat) -> Encoding
        decreases edges,
    {
        if edges == 0 {
            self
        } else {
            self.point_dest_adjacent_not_same(puzzle, (edges - 1) as nat).not_same(
                puzzle,
                (edges - 1) as nat,
            )
        }
    }

    /// The state after a literal has been made to stand for "the edges `a`
    /// and `b` have the same shape": the disjunction of the up to four ways in
    /// which a point of one can come to lie across from a point of the other.
    /// Where that cannot be, the pair gets no literal.
    pub open spec fn edge_matching_var<P: Puzzle>(self, puzzle: &P, a: nat, b: nat) -> Encoding {
        let a1 = puzzle.edge_anchor(a);
        let a2 = puzzle.mate(a1);
        let b1 = puzzle.edge_anchor(b);
        let b2 = puzzle.mate(b1);
        let ways = present(self.adjacent, a1, b1) + present(self.adjacent, a1, b2) + present(
            self.adjacent,
            a2,
            b1,
        ) + present(self.adjacent, a2, b2);
        if self.status != Status::Building || ways.len() == 0 {
            self
        } else if self.formula.num_vars >= MAX_VARIABLES {
            self.fail(Status::OutOfVariables)
        } else {
            let (any, formula) = self.formula.or_var(ways);
            if any == Literal::False {
                Encoding { formula, ..self }
            } else if self.matching.contains_key(ordered(a, b)) {
                Encoding { formula, status: Status::KeyMetTwice, ..self }
            } else {
                Encoding { formula, matching: self.matching.insert(ordered(a, b), any), ..self }
            }
        }
    }

    /// The state after [`Encoding::edge_matching_var`] for each pair of
    /// `pairs`, first to last.
    pub open spec fn matching_vars<P: Puzzle>(self, puzzle: &P, pairs: Seq<(nat, nat)>) -> Encoding
        decreases pairs.len(),
    {
        if pairs.len() == 0 {
            self
        } else {
            self.matching_vars(puzzle, pairs.drop_last()).edge_matching_var(
                puzzle,
                pairs.last().0,
                pairs.last().1,
            )
        }
    }

    /// The state after every pair of edges has been given its literal, where
    /// it can have one.
    pub open spec fn edge_matching_vars<P: Puzzle>(self, puzzle: &P) -> Encoding {
        self.matching_vars(puzzle, pairs_below(puzzle.edges()))
    }

    /// The whole construction: the seven stages in their order.
    pub open spec fn encoded<P: Puzzle>(self, puzzle: &P) -> Encoding {
        self.point_dest_vars(puzzle, puzzle.pieces()).one_hot_point_dest(
            puzzle,
            puzzle.pieces(),
        ).one_hot_point_src(puzzle, puzzle.pieces()).point_dest_adjacent_vars(
            puzzle,
        ).point_dest_adjacent_not_same(puzzle, puzzle.edges()).edge_matching_vars(
            puzzle,
        ).one_hot_edge_matching(puzzle, puzzle.edges())
    }

    /// Where the first `pieces` pieces go under `a`: for each of them the
    /// pairs of its anchor and a destination whose variable is true.
    pub open spec fn chosen_dests<P: Puzzle>(self, puzzle: &P, a: Assignment, pieces: nat) -> Seq<
        (nat, nat),
    >
        decreases pieces,
    {
        if pieces == 0 {
            Seq::empty()
        } else {
            let piece = (pieces - 1) as nat;
            self.chosen_dests(puzzle, a, piece) + chosen_in_row(
                self.point_dest,
                a,
                puzzle.anchor(piece),
                2 * puzzle.edges(),
            )
        }
    }

    /// Whether the edges `x` and `y`, `x` the smaller, have the same shape
    /// under `a`.
    pub open spec fn matched(self, a: Assignment, x: nat, y: nat) -> bool {
        self.matching.contains_key((x, y)) && self.matching[(x, y)].value(a)
    }

    /// The destination variables of the anchors of the first `pieces` pieces,
    /// piece by piece and in order of the destination.
    pub open spec fn anchor_vars<P: Puzzle>(self, puzzle: &P, pieces: nat) -> Seq<Literal>
        decreases pieces,
    {
        if pieces == 0 {
            Seq::empty()
        } else {
            let piece = (pieces - 1) as nat;
            self.anchor_vars(puzzle, piece) + row_vars(
                self.point_dest,
                puzzle.anchor(piece),
                2 * puzzle.edges(),
            )
        }
    }

    /// The clause that rules out the doubling that `a` shows: some
    /// destination variable of an anchor has another value than under `a`.
    pub open spec fn blocking_clause<P: Puzzle>(self, puzzle: &P, a: Assignment) -> Seq<Literal> {
        differing(self.anchor_vars(puzzle, puzzle.pieces()), a)
    }

    /// The state after the doubling that `a` shows has been ruled out. Where
    /// the clause that rules it out is a contradiction, no other doubling
    /// exists.
    pub open spec fn blocked<P: Puzzle>(self, puzzle: &P, a: Assignment) -> Encoding {
        if self.status != Status::Building {
            self
        } else if contradiction(self.blocking_clause(puzzle, a)) {
            self.fail(Status::Contradiction)
        } else {
            Encoding { formula: self.formula.with_clause(self.blocking_clause(puzzle, a)), ..self }
        }
    }
}

/// The clause that rules out what `a` shows is false under `a`, and true under
/// exactly the assignments that give some literal another value than `a`
/// does.
pub proof fn lemma_differing(lits: Seq<Literal>, a: Assignment, m: Assignment)
    ensures
        !crate::formula::clause_holds(differing(lits, a), a),
        crate::formula::clause_holds(differing(lits, a), m) <==> exists|i: int|
            0 <= i < lits.len() && (#[trigger] lits[i]).value(m) != lits[i].value(a),
        forall|n: nat|
            crate::formula::all_within(lits, n) ==> crate::formula::all_within(
                differing(lits, a),
                n,
            ),
{
    let clause = differing(lits, a);
    assert forall|i: int| 0 <= i < lits.len() implies !(#[trigger] clause[i]).value(a) && (
    clause[i].value(m) <==> lits[i].value(m) != lits[i].value(a)) by {}
    if exists|i: int| 0 <= i < lits.len() && (#[trigger] lits[i]).value(m) != lits[i].value(a) {
        let i = choose|i: int|
            0 <= i < lits.len() && (#[trigger] lits[i]).value(m) != lits[i].value(a);
        assert(clause[i].value(m));
    }
    assert forall|n: nat| crate::formula::all_within(lits, n) implies crate::formula::all_within(
        clause,
        n,
    ) by {
        assert forall|i: int| 0 <= i < clause.len() implies (#[trigger] clause[i]).within(n) by {}
    }
}

} // verus!
