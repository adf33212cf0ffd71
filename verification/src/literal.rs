//! Literals: a variable, its negation, or one of the two constants.
use vstd::prelude::*;

verus! {

/// The number of variables a formula may hold. Variable ids run from 1 to this
/// bound inclusive.
pub const MAX_VARIABLES: u32 = 0x1000_0000;

/// A truth assignment, given as the set of ids of the variables that are true.
/// A variable that is not in the set is false.
pub type Assignment = Set<nat>;

/// A literal of a formula.
#[derive(Clone, Copy, Debug, PartialEq, Eq, Hash, Structural)]
pub enum Literal {
    /// The literal that every assignment makes true.
    True,
    /// The literal that every assignment makes false.
    False,
    /// The variable `id`, negated or not.
    Var { id: u32, negated: bool },
}

impl Literal {
    /// The negation of this literal.
    pub open spec fn negation(self) -> Literal {
        match self {
            Literal::True => Literal::False,
            Literal::False => Literal::True,
            Literal::Var { id, negated } => Literal::Var { id, negated: !negated },
        }
    }

    /// Whether this literal is one of the two constants.
    pub open spec fn is_constant(self) -> bool {
        self == Literal::True || self == Literal::False
    }

    /// A variable literal is well formed when its id is positive and not above
    /// the bound; the constants always are.
    pub open spec fn wf(self) -> bool {
        match self {
            Literal::Var { id, negated } => 1 <= id <= MAX_VARIABLES,
            _ => true,
        }
    }

    /// Whether this literal speaks only of the first `num_vars` variables.
    pub open spec fn within(self, num_vars: nat) -> bool {
        match self {
            Literal::Var { id, negated } => 1 <= id <= num_vars,
            _ => true,
        }
    }

    /// The truth value of this literal under an assignment.
    pub open spec fn value(self, a: Assignment) -> bool {
        match self {
            Literal::True => true,
            Literal::False => false,
            Literal::Var { id, negated } => a.contains(id as nat) != negated,
        }
    }

    /// The signed number that stands for a variable literal in the DIMACS
    /// format: the id, negative for a negated variable. The constants have no
    /// such number and are given 0.
    pub open spec fn code(self) -> int {
        match self {
            Literal::Var { id, negated } => if negated { -(id as int) } else { id as int },
            _ => 0,
        }
    }

    /// The variable literal that a nonzero signed number stands for.
    pub open spec fn of_code(code: int) -> Literal {
        if code < 0 {
            Literal::Var { id: (-code) as u32, negated: true }
        } else {
            Literal::Var { id: code as u32, negated: false }
        }
    }

    /// The positive literal of variable `id`.
    pub fn positive(id: u32) -> (lit: Literal)
        ensures
            lit == (Literal::Var { id, negated: false }),
    {
        Literal::Var { id, negated: false }
    }

    /// Negates in constant time: the constants are swapped, a variable changes
    /// its sign.
    pub fn negate(self) -> (lit: Literal)
        ensures
            lit == self.negation(),
    {
        match self {
            Literal::True => Literal::False,
            Literal::False => Literal::True,
            Literal::Var { id, negated } => Literal::Var { id, negated: !negated },
        }
    }

    /// Whether this literal is one of the two constants.
    pub fn is_const(self) -> (b: bool)
        ensures
            b == self.is_constant(),
    {
        match self {
            Literal::Var { id, negated } => false,
            _ => true,
        }
    }

    /// Whether this literal is a variable that is not negated.
    pub fn is_positive(self) -> (b: bool)
        ensures
            b == (self matches Literal::Var { id, negated } && !negated),
    {
        match self {
            Literal::Var { id, negated } => !negated,
            _ => false,
        }
    }

    /// Whether this literal is a negated variable.
    pub fn is_negative(self) -> (b: bool)
        ensures
            b == (self matches Literal::Var { id, negated } && negated),
    {
        match self {
            Literal::Var { id, negated } => negated,
            _ => false,
        }
    }

    /// The DIMACS number of a variable literal.
    pub fn to_dimacs(self) -> (n: isize)
        requires
            self.wf(),
            !self.is_constant(),
        ensures
            n == self.code(),
            n != 0,
    {
        match self {
            Literal::Var { id, negated } => {
                let n: isize = id as isize;
                if negated {
                    -n
                } else {
                    n
                }
            },
            _ => 0,
        }
    }

    /// The variable literal with the given DIMACS number.
    pub fn from_dimacs(n: isize) -> (lit: Literal)
        requires
            n != 0,
            -(MAX_VARIABLES as int) <= n <= MAX_VARIABLES as int,
        ensures
            lit == Literal::of_code(n as int),
            lit.wf(),
            !lit.is_constant(),
            lit.code() == n,
    {
        if n < 0 {
            Literal::Var { id: (-n) as u32, negated: true }
        } else {
            Literal::Var { id: n as u32, negated: false }
        }
    }
}

impl core::ops::Not for Literal {
    type Output = Literal;

    fn not(self) -> (lit: Literal) {
        self.negate()
    }
}

impl vstd::std_specs::ops::NotSpecImpl for Literal {
    open spec fn obeys_not_spec() -> bool {
        true
    }

    open spec fn not_req(self) -> bool {
        true
    }

    open spec fn not_spec(self) -> Literal {
        self.negation()
    }
}

/// Negating twice gives the literal back.
pub proof fn lemma_negation_involution(lit: Literal)
    ensures
        lit.negation().negation() == lit,
{
}

/// The two constants are each other's negation, and the negation of a variable
/// literal is never a constant.
pub proof fn lemma_negation_constants(lit: Literal)
    ensures
        Literal::True.negation() == Literal::False,
        Literal::False.negation() == Literal::True,
        lit.negation() == Literal::True <==> lit == Literal::False,
        lit.negation() == Literal::False <==> lit == Literal::True,
        lit.negation().is_constant() <==> lit.is_constant(),
{
}

/// A literal and its negation have opposite values under every assignment,
/// and negation keeps the variable.
pub proof fn lemma_negation_value(lit: Literal, a: Assignment)
    ensures
        lit.negation().value(a) == !lit.value(a),
        lit.negation().wf() == lit.wf(),
        forall|n: nat| lit.negation().within(n) == lit.within(n),
        lit.negation().code() == -lit.code(),
{
}

/// A well-formed variable literal is the one its DIMACS number stands for.
pub proof fn lemma_code_round_trip(lit: Literal)
    requires
        lit.wf(),
        !lit.is_constant(),
    ensures
        Literal::of_code(lit.code()) == lit,
        lit.code() != 0,
{
}

} // verus!
