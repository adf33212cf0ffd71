//! Why the search ends: the destination variables of the anchors can take
//! finitely many patterns of values, and every answer rules one of them out.
use vstd::prelude::*;
use vstd::set_lib::lemma_set_subset_finite;
use crate::encoding::{differing, lemma_differing, Encoding, Status};
use crate::formula::{contradiction, lemma_contradiction_unsatisfiable, lemma_with_clause};
use crate::literal::{Assignment, Literal};
use crate::puzzle::Puzzle;

verus! {

/// The values that `a` gives to the literals of `lits`, in their order.
pub open spec fn pattern(lits: Seq<Literal>, a: Assignment) -> Seq<bool> {
    lits.map_values(|l: Literal| l.value(a))
}

/// Every sequence of `len` truth values.
pub open spec fn bool_seqs(len: nat) -> Set<Seq<bool>>
    decreases len,
{
    if len == 0 {
        Set::empty().insert(Seq::empty())
    } else {
        let shorter = bool_seqs((len - 1) as nat);
        shorter.map(|s: Seq<bool>| s.push(false)).union(shorter.map(|s: Seq<bool>| s.push(true)))
    }
}

/// There are finitely many sequences of `len` truth values, and
/// [`bool_seqs`] holds them all.
pub proof fn lemma_bool_seqs(len: nat)
    ensures
        bool_seqs(len).finite(),
        forall|s: Seq<bool>| s.len() == len ==> #[trigger] bool_seqs(len).contains(s),
    decreases len,
{
    if len == 0 {
        assert forall|s: Seq<bool>| s.len() == len implies #[trigger] bool_seqs(len).contains(
            s,
        ) by {
            assert(s =~= Seq::empty());
        }
    } else {
        let shorter = bool_seqs((len - 1) as nat);
        let with_false = |s: Seq<bool>| s.push(false);
        let with_true = |s: Seq<bool>| s.push(true);
        lemma_bool_seqs((len - 1) as nat);
        shorter.lemma_map_finite(with_false);
        shorter.lemma_map_finite(with_true);
        assert forall|s: Seq<bool>| s.len() == len implies #[trigger] bool_seqs(len).contains(
            s,
        ) by {
            let init = s.drop_last();
            assert(shorter.contains(init));
            if s.last() {
                assert(s =~= with_true(init));
                assert(shorter.map(with_true).contains(s));
            } else {
                assert(s =~= with_false(init));
                assert(shorter.map(with_false).contains(s));
            }
        }
    }
}

impl Encoding {
    /// The patterns of values that are still open to the destination
    /// variables of the anchors: those that some assignment gives them that
    /// satisfies the formula. None is open once the search has ended in a
    /// contradiction.
    pub open spec fn open_patterns<P: Puzzle>(self, puzzle: &P) -> Set<Seq<bool>> {
        if self.status == Status::Building {
            Set::new(
                |p: Seq<bool>|
                    exists|m: Assignment| #[trigger]
                        self.formula.holds(m) && pattern(
                            self.anchor_vars(puzzle, puzzle.pieces()),
                            m,
                        ) == p,
            )
        } else {
            Set::empty()
        }
    }
}

/// Finitely many patterns are open.
pub proof fn lemma_open_patterns_finite<P: Puzzle>(puzzle: &P, e: Encoding)
    ensures
        e.open_patterns(puzzle).finite(),
{
    let lits = e.anchor_vars(puzzle, puzzle.pieces());
    lemma_bool_seqs(lits.len());
    assert forall|p: Seq<bool>| e.open_patterns(puzzle).contains(p) implies bool_seqs(
        lits.len(),
    ).contains(p) by {
        assert(p.len() == lits.len());
    }
    lemma_set_subset_finite(bool_seqs(lits.len()), e.open_patterns(puzzle));
}

/// No pattern is open exactly when the formula has no model, or the search has
/// ended in a contradiction.
pub proof fn lemma_open_patterns_none<P: Puzzle>(puzzle: &P, e: Encoding)
    ensures
        e.open_patterns(puzzle).len() == 0 <==> e.status != Status::Building || forall|
            a: Assignment,
        |
            !e.formula.holds(a),
{
    let open = e.open_patterns(puzzle);
    let lits = e.anchor_vars(puzzle, puzzle.pieces());
    lemma_open_patterns_finite(puzzle, e);
    if e.status == Status::Building {
        if exists|a: Assignment| e.formula.holds(a) {
            let a = choose|a: Assignment| e.formula.holds(a);
            assert(open.contains(pattern(lits, a)));
            if open.len() == 0 {
                open.lemma_len0_is_empty();
            }
        } else {
            assert(open =~= Set::<Seq<bool>>::empty());
        }
    }
}

/// Ruling out the doubling that a model shows closes the pattern of that
/// model and no other, so that one pattern fewer is open: a search that rules
/// out every answer ends.
pub proof fn lemma_blocked_patterns<P: Puzzle>(puzzle: &P, e: Encoding, a: Assignment)
    requires
        e.status == Status::Building,
        e.formula.holds(a),
    ensures
        e.open_patterns(puzzle).finite(),
        e.open_patterns(puzzle).contains(pattern(e.anchor_vars(puzzle, puzzle.pieces()), a)),
        e.blocked(puzzle, a).open_patterns(puzzle) == e.open_patterns(puzzle).remove(
            pattern(e.anchor_vars(puzzle, puzzle.pieces()), a),
        ),
        e.blocked(puzzle, a).open_patterns(puzzle).len() + 1 == e.open_patterns(puzzle).len(),
{
    let lits = e.anchor_vars(puzzle, puzzle.pieces());
    let clause = e.blocking_clause(puzzle, a);
    let after = e.blocked(puzzle, a);
    let shown = pattern(lits, a);
    lemma_open_patterns_finite(puzzle, e);
    assert(e.open_patterns(puzzle).contains(shown));
    assert(after.anchor_vars(puzzle, puzzle.pieces()) == lits) by {
        lemma_anchor_vars_of_table(puzzle, e, after, puzzle.pieces());
    }
    assert forall|m: Assignment|
        clause_differs(lits, a, m) <==> pattern(lits, m) != shown by {
        lemma_differing(lits, a, m);
        if pattern(lits, m) != shown {
            if !clause_differs(lits, a, m) {
                assert(pattern(lits, m) =~= shown);
            }
        }
        if clause_differs(lits, a, m) {
            let i = choose|i: int|
                0 <= i < lits.len() && (#[trigger] lits[i]).value(m) != lits[i].value(a);
            assert(pattern(lits, m)[i] != shown[i]);
        }
    }
    assert forall|p: Seq<bool>|
        after.open_patterns(puzzle).contains(p) == e.open_patterns(puzzle).remove(shown).contains(
            p,
        ) by {
        if after.open_patterns(puzzle).contains(p) {
            let m = choose|m: Assignment| #[trigger]
                after.formula.holds(m) && pattern(lits, m) == p;
            lemma_with_clause(e.formula, clause, m);
            lemma_differing(lits, a, m);
            assert(e.formula.holds(m));
            assert(clause_differs(lits, a, m));
        }
        if e.open_patterns(puzzle).remove(shown).contains(p) {
            let m = choose|m: Assignment| #[trigger] e.formula.holds(m) && pattern(lits, m) == p;
            lemma_with_clause(e.formula, clause, m);
            lemma_differing(lits, a, m);
            assert(clause_differs(lits, a, m));
            if contradiction(clause) {
                lemma_contradiction_unsatisfiable(clause, m);
            }
            assert(after.formula.holds(m));
        }
    }
    assert(after.open_patterns(puzzle) =~= e.open_patterns(puzzle).remove(shown));
}

/// Whether `m` gives some literal of `lits` another value than `a` does.
pub open spec fn clause_differs(lits: Seq<Literal>, a: Assignment, m: Assignment) -> bool {
    exists|i: int| 0 <= i < lits.len() && (#[trigger] lits[i]).value(m) != lits[i].value(a)
}

/// The destination variables of the anchors are read from the table of
/// destinations alone.
pub proof fn lemma_anchor_vars_of_table<P: Puzzle>(
    puzzle: &P,
    e: Encoding,
    other: Encoding,
    pieces: nat,
)
    requires
        e.point_dest == other.point_dest,
    ensures
        e.anchor_vars(puzzle, pieces) == other.anchor_vars(puzzle, pieces),
    decreases pieces,
{
    if pieces > 0 {
        lemma_anchor_vars_of_table(puzzle, e, other, (pieces - 1) as nat);
    }
}

} // verus!
