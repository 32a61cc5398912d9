//! Problem configuration, validation and the discrete side of solution evaluation.
//!
//! Objective values, constraint bounds and violation magnitudes are held as *order keys*:
//! 64-bit integers whose order is the order of the real values they stand for (see
//! [`crate::problem::Solution`]). Every decision the library takes on these values is a
//! comparison, so the keys carry all that the logic reads.
use vstd::prelude::*;
use vstd::string::StringExecFns;

use crate::gatypes::SolutionDataTypes;
use crate::random::shuffle;
use rand::rngs::SmallRng;

verus! {

/// An invalid-configuration error from a `try_new` constructor.
#[derive(Debug, PartialEq, Eq)]
pub struct ConfigError {
    msg: String,
}

impl ConfigError {
    /// The error's message.
    pub closed spec fn text(&self) -> Seq<char> {
        self.msg@
    }

    pub fn new(message: String) -> (e: Self)
        ensures
            e.text() == message@,
    {
        ConfigError { msg: message }
    }

    pub fn message(&self) -> (m: &str)
        ensures
            m@ == self.text(),
    {
        self.msg.as_str()
    }
}

impl Clone for ConfigError {
    fn clone(&self) -> (e: Self)
        ensures
            e.text() == self.text(),
    {
        ConfigError { msg: self.msg.clone() }
    }
}

/// How a solution vector is structured, which decides how it is generated and varied.
#[derive(Clone, Copy, Debug, PartialEq, Eq, Structural)]
pub enum Encoding {
    /// Each gene is independent and typed by its `SolutionDataTypes` entry. The default.
    PerGene,
    /// The solution is a permutation of `0..solution_length`.
    Permutation,
}

impl Default for Encoding {
    fn default() -> (e: Self)
        ensures
            e == Encoding::PerGene,
    {
        Encoding::PerGene
    }
}

/// The relational operator of an objective-bound constraint `objective <op> bound`.
#[derive(Clone, Copy, Debug, PartialEq, Eq, Structural)]
pub enum ConstraintOp {
    Less,
    Greater,
    LessEq,
    GreaterEq,
    Equal,
    NotEqual,
}

/// The operator that the text of an operand names, if any.
pub open spec fn operand_of(text: Seq<char>) -> Option<ConstraintOp> {
    if text == "<"@ {
        Some(ConstraintOp::Less)
    } else if text == ">"@ {
        Some(ConstraintOp::Greater)
    } else if text == "<="@ {
        Some(ConstraintOp::LessEq)
    } else if text == ">="@ {
        Some(ConstraintOp::GreaterEq)
    } else if text == "=="@ {
        Some(ConstraintOp::Equal)
    } else if text == "!="@ {
        Some(ConstraintOp::NotEqual)
    } else {
        None
    }
}

/// Reads an operand: one of `<`, `>`, `<=`, `>=`, `==`, `!=`.
pub fn parse_operand(op: &String) -> (r: Option<ConstraintOp>)
    ensures
        r == operand_of(op@),
{
    if *op == String::from_str("<") {
        Some(ConstraintOp::Less)
    } else if *op == String::from_str(">") {
        Some(ConstraintOp::Greater)
    } else if *op == String::from_str("<=") {
        Some(ConstraintOp::LessEq)
    } else if *op == String::from_str(">=") {
        Some(ConstraintOp::GreaterEq)
    } else if *op == String::from_str("==") {
        Some(ConstraintOp::Equal)
    } else if *op == String::from_str("!=") {
        Some(ConstraintOp::NotEqual)
    } else {
        None
    }
}

/// Whether `objective <op> bound` holds, on order keys.
pub open spec fn op_holds(op: ConstraintOp, objective: i64, bound: i64) -> bool {
    match op {
        ConstraintOp::Less => objective < bound,
        ConstraintOp::Greater => objective > bound,
        ConstraintOp::LessEq => objective <= bound,
        ConstraintOp::GreaterEq => objective >= bound,
        ConstraintOp::Equal => objective == bound,
        ConstraintOp::NotEqual => objective != bound,
    }
}

/// The decimal text of an integer, with a leading `-` when negative.
pub open spec fn decimal(v: int) -> Seq<char> {
    if v < 0 {
        seq!['-'] + digits((-v) as nat)
    } else {
        digits(v as nat)
    }
}

pub open spec fn digit_char(d: nat) -> char {
    if d == 0 {
        '0'
    } else if d == 1 {
        '1'
    } else if d == 2 {
        '2'
    } else if d == 3 {
        '3'
    } else if d == 4 {
        '4'
    } else if d == 5 {
        '5'
    } else if d == 6 {
        '6'
    } else if d == 7 {
        '7'
    } else if d == 8 {
        '8'
    } else {
        '9'
    }
}

/// The decimal digits of a natural number, most significant first.
pub open spec fn digits(n: nat) -> Seq<char>
    decreases n,
{
    if n < 10 {
        seq![digit_char(n)]
    } else {
        digits(n / 10) + seq![digit_char(n % 10)]
    }
}

fn digit_text(d: u8) -> (s: &'static str)
    requires
        d < 10,
    ensures
        s@ == seq![digit_char(d as nat)],
{
    proof {
        reveal_strlit("0");
        reveal_strlit("1");
        reveal_strlit("2");
        reveal_strlit("3");
        reveal_strlit("4");
        reveal_strlit("5");
        reveal_strlit("6");
        reveal_strlit("7");
        reveal_strlit("8");
        reveal_strlit("9");
    }
    if d == 0 {
        "0"
    } else if d == 1 {
        "1"
    } else if d == 2 {
        "2"
    } else if d == 3 {
        "3"
    } else if d == 4 {
        "4"
    } else if d == 5 {
        "5"
    } else if d == 6 {
        "6"
    } else if d == 7 {
        "7"
    } else if d == 8 {
        "8"
    } else {
        "9"
    }
}

/// Appends the decimal text of `v` to `s`.
fn push_decimal(s: &mut String, v: i8)
    ensures
        final(s)@ == old(s)@ + decimal(v as int),
{
    let ghost start = s@;
    let mut n: u8;
    if v < 0 {
        s.append("-");
        proof {
            reveal_strlit("-");
        }
        n = if v == -128 {
            128u8
        } else {
            (-v) as u8
        };
    } else {
        n = v as u8;
    }
    let ghost mid = s@;
    assert(n as int == if v < 0 {
        -v
    } else {
        v as int
    });
    if n >= 100 {
        s.append(digit_text(n / 100));
        s.append(digit_text((n / 10) % 10));
        s.append(digit_text(n % 10));
        assert(digits((n / 100) as nat) == seq![digit_char((n / 100) as nat)]);
        assert(digits((n / 10) as nat) == digits((n / 100) as nat) + seq![
            digit_char(((n / 10) % 10) as nat),
        ]) by {
            assert(((n / 10) as nat) / 10 == (n / 100) as nat);
        }
        assert(s@ == mid + digits(n as nat));
    } else if n >= 10 {
        s.append(digit_text(n / 10));
        s.append(digit_text(n % 10));
        assert(digits((n / 10) as nat) == seq![digit_char((n / 10) as nat)]);
        assert(s@ == mid + digits(n as nat));
    } else {
        s.append(digit_text(n));
        assert(s@ == mid + digits(n as nat));
    }
}

/// The configuration of an optimization problem: the search space's shape, the objectives,
/// their directions and the constraints on them.
///
/// `objective_constraint` holds one optional bound per objective, as an order key;
/// `objective_constraint_operands` the matching operator text. `direction` is `-1`
/// (minimize) or `1` (maximize) per objective. `variable_constraints` counts the
/// decision-variable constraints `g(x) <= 0`, whose values the caller computes.
#[derive(Debug)]
pub struct Problem {
    pub solution_length: usize,
    pub number_of_objectives: usize,
    pub objective_constraint: Option<Vec<Option<i64>>>,
    pub objective_constraint_operands: Option<Vec<Option<String>>>,
    pub direction: Option<Vec<i8>>,
    pub solution_data_types: Vec<SolutionDataTypes>,
    pub variable_constraints: usize,
    pub encoding: Encoding,
}

pub open spec fn msg_length_mismatch() -> Seq<char> {
    "solution_length does not match solution_data_types length"@
}

pub open spec fn msg_constraint_len() -> Seq<char> {
    "objective_constraint length does not match number_of_objectives"@
}

pub open spec fn msg_operands_len() -> Seq<char> {
    "objective_constraint_operands length does not match number_of_objectives"@
}

pub open spec fn msg_bounds_without_operands() -> Seq<char> {
    "objective_constraint is set but objective_constraint_operands is None — supply both or neither"@
}

pub open spec fn msg_operands_without_bounds() -> Seq<char> {
    "objective_constraint_operands is set but objective_constraint is None — supply both or neither"@
}

pub open spec fn msg_invalid_operand(op: Seq<char>) -> Seq<char> {
    "Invalid operand: "@ + op + " (expected one of <, >, <=, >=, ==, !=)"@
}

pub open spec fn msg_direction_len() -> Seq<char> {
    "direction length does not match number_of_objectives"@
}

pub open spec fn msg_bad_direction(d: i8) -> Seq<char> {
    "direction entries must be 1 (maximize) or -1 (minimize), got "@ + decimal(d as int)
}

/// Whether an operand entry is present and names no operator.
pub open spec fn bad_operand(entry: Option<String>) -> bool {
    entry matches Some(op) && operand_of(op@) is None
}

/// The position of the first present operand that names no operator, or the length.
pub open spec fn first_bad_operand(ops: Seq<Option<String>>, from: int) -> int
    decreases ops.len() - from,
{
    if from >= ops.len() {
        ops.len() as int
    } else if bad_operand(ops[from]) {
        from
    } else {
        first_bad_operand(ops, from + 1)
    }
}

/// The position of the first direction entry that is neither `1` nor `-1`, or the length.
pub open spec fn first_bad_direction(dirs: Seq<i8>, from: int) -> int
    decreases dirs.len() - from,
{
    if from >= dirs.len() {
        dirs.len() as int
    } else if dirs[from] != 1 && dirs[from] != -1 {
        from
    } else {
        first_bad_direction(dirs, from + 1)
    }
}

/// The message of the first configuration error, in the order `try_new` checks them, or
/// `None` for a valid configuration.
pub open spec fn config_error(
    solution_length: usize,
    number_of_objectives: usize,
    objective_constraint: Option<Vec<Option<i64>>>,
    objective_constraint_operands: Option<Vec<Option<String>>>,
    direction: Option<Vec<i8>>,
    n_types: nat,
) -> Option<Seq<char>> {
    if solution_length != n_types {
        Some(msg_length_mismatch())
    } else if objective_constraint matches Some(c) && c.len() != number_of_objectives {
        Some(msg_constraint_len())
    } else if objective_constraint_operands matches Some(o) && o.len() != number_of_objectives {
        Some(msg_operands_len())
    } else if objective_constraint is Some && objective_constraint_operands is None {
        Some(msg_bounds_without_operands())
    } else if objective_constraint is None && objective_constraint_operands is Some {
        Some(msg_operands_without_bounds())
    } else if operand_error(objective_constraint_operands) is Some {
        operand_error(objective_constraint_operands)
    } else {
        direction_error(direction, number_of_objectives)
    }
}

/// The message for the first present operand that names no operator, if any.
pub open spec fn operand_error(ops: Option<Vec<Option<String>>>) -> Option<Seq<char>> {
    match ops {
        Some(o) => if first_bad_operand(o@, 0) < o.len() {
            Some(msg_invalid_operand(o@[first_bad_operand(o@, 0)].unwrap()@))
        } else {
            None
        },
        None => None,
    }
}

/// The message for a direction of the wrong length or with an entry other than `1`/`-1`.
pub open spec fn direction_error(direction: Option<Vec<i8>>, n: usize) -> Option<Seq<char>> {
    match direction {
        Some(d) => if d.len() != n {
            Some(msg_direction_len())
        } else if first_bad_direction(d@, 0) < d.len() {
            Some(msg_bad_direction(d@[first_bad_direction(d@, 0)]))
        } else {
            None
        },
        None => None,
    }
}

/// The direction a built problem holds: the given one, or minimize on every objective.
pub open spec fn direction_or_default(direction: Option<Vec<i8>>, n: usize) -> Option<Seq<i8>> {
    match direction {
        Some(d) => Some(d@),
        None => Some(Seq::new(n as nat, |i: int| -1i8)),
    }
}

pub open spec fn opt_view(d: Option<Vec<i8>>) -> Option<Seq<i8>> {
    match d {
        Some(v) => Some(v@),
        None => None,
    }
}

/// Whether any constraint source is configured: objective bounds or decision-variable
/// constraints.
pub open spec fn has_constraints_spec(p: Problem) -> bool {
    (p.objective_constraint matches Some(c) && c.len() > 0) || p.variable_constraints > 0
}

/// Whether objective `i` is minimized, which is how dominance reads `direction`.
pub open spec fn minimized(p: Problem, i: int) -> bool {
    p.direction matches Some(d) && 0 <= i < d.len() && d@[i] == -1
}

impl Problem {
    /// Fallible constructor: validates the configuration and reports the first error.
    #[verifier::loop_isolation(false)]
    pub fn try_new(
        solution_length: usize,
        number_of_objectives: usize,
        objective_constraint: Option<Vec<Option<i64>>>,
        objective_constraint_operands: Option<Vec<Option<String>>>,
        direction: Option<Vec<i8>>,
        solution_data_types: Vec<SolutionDataTypes>,
    ) -> (r: Result<Problem, ConfigError>)
        ensures
            ({
                let err = config_error(
                    solution_length,
                    number_of_objectives,
                    objective_constraint,
                    objective_constraint_operands,
                    direction,
                    solution_data_types@.len(),
                );
                match r {
                    Err(e) => err == Some(e.text()),
                    Ok(p) => err is None && p.solution_length == solution_length
                        && p.number_of_objectives == number_of_objectives
                        && p.objective_constraint == objective_constraint
                        && p.objective_constraint_operands == objective_constraint_operands
                        && opt_view(p.direction) == direction_or_default(
                        direction,
                        number_of_objectives,
                    ) && p.solution_data_types == solution_data_types
                        && p.variable_constraints == 0 && p.encoding == Encoding::PerGene,
                }
            }),
    {
        if solution_length != solution_data_types.len() {
            return Err(ConfigError::new(String::from_str("solution_length does not match solution_data_types length")));
        }
        if let Some(constraints) = &objective_constraint {
            if constraints.len() != number_of_objectives {
                return Err(ConfigError::new(String::from_str("objective_constraint length does not match number_of_objectives")));
            }
        }
        if let Some(operands) = &objective_constraint_operands {
            if operands.len() != number_of_objectives {
                return Err(ConfigError::new(String::from_str("objective_constraint_operands length does not match number_of_objectives")));
            }
        }
        match (&objective_constraint, &objective_constraint_operands) {
            (Some(_), None) => {
                return Err(ConfigError::new(String::from_str("objective_constraint is set but objective_constraint_operands is None — supply both or neither")));
            },
            (None, Some(_)) => {
                return Err(ConfigError::new(String::from_str("objective_constraint_operands is set but objective_constraint is None — supply both or neither")));
            },
            _ => {},
        }
        if let Some(operands) = &objective_constraint_operands {
            let mut i: usize = 0;
            while i < operands.len()
                invariant
                    0 <= i <= operands.len(),
                    first_bad_operand(operands@, 0) == first_bad_operand(operands@, i as int),
                decreases operands.len() - i,
            {
                if let Some(op) = &operands[i] {
                    if parse_operand(op).is_none() {
                        assert(first_bad_operand(operands@, i as int) == i);
                        let mut text = String::from_str("Invalid operand: ");
                        text.append(op.as_str());
                        text.append(" (expected one of <, >, <=, >=, ==, !=)");
                        return Err(ConfigError::new(text));
                    }
                }
                i = i + 1;
            }
        }
        let ghost given = direction;
        let direction = match direction {
            Some(d) => d,
            None => vec_of_minus_one(number_of_objectives),
        };
        assert(given is None ==> forall|j: int| 0 <= j < direction@.len() ==> direction@[j] == -1);
        if direction.len() != number_of_objectives {
            return Err(ConfigError::new(String::from_str("direction length does not match number_of_objectives")));
        }
        let mut i: usize = 0;
        while i < direction.len()
            invariant
                0 <= i <= direction.len(),
                first_bad_direction(direction@, 0) == first_bad_direction(direction@, i as int),
            decreases direction.len() - i,
        {
            if direction[i] != 1 && direction[i] != -1 {
                assert(first_bad_direction(direction@, i as int) == i);
                assert(given is Some);
                let mut text = String::from_str("direction entries must be 1 (maximize) or -1 (minimize), got ");
                push_decimal(&mut text, direction[i]);
                return Err(ConfigError::new(text));
            }
            i = i + 1;
        }
        proof {
            assert(first_bad_direction(direction@, i as int) == direction@.len());
        }
        Ok(Problem {
            solution_length,
            number_of_objectives,
            objective_constraint,
            objective_constraint_operands,
            direction: Some(direction),
            solution_data_types,
            variable_constraints: 0,
            encoding: Encoding::PerGene,
        })
    }
}

/// `n` copies of `-1`: minimize every objective.
fn vec_of_minus_one(n: usize) -> (v: Vec<i8>)
    ensures
        v@ == Seq::new(n as nat, |i: int| -1i8),
{
    let mut v: Vec<i8> = Vec::new();
    while v.len() < n
        invariant
            v.len() <= n,
            forall|j: int| 0 <= j < v.len() ==> v@[j] == -1i8,
        decreases n - v.len(),
    {
        v.push(-1);
    }
    assert(v@ =~= Seq::new(n as nat, |i: int| -1i8));
    v
}


/// `0, 1, .., n - 1`.
pub open spec fn identity_seq(n: nat) -> Seq<usize> {
    Seq::new(n, |i: int| i as usize)
}

impl Problem {
    /// Constructor for a configuration known to be valid (see [`Problem::try_new`]).
    pub fn new(
        solution_length: usize,
        number_of_objectives: usize,
        objective_constraint: Option<Vec<Option<i64>>>,
        objective_constraint_operands: Option<Vec<Option<String>>>,
        direction: Option<Vec<i8>>,
        solution_data_types: Vec<SolutionDataTypes>,
    ) -> (p: Problem)
        requires
            config_error(
                solution_length,
                number_of_objectives,
                objective_constraint,
                objective_constraint_operands,
                direction,
                solution_data_types@.len(),
            ) is None,
        ensures
            p.solution_length == solution_length,
            p.number_of_objectives == number_of_objectives,
            p.objective_constraint == objective_constraint,
            p.objective_constraint_operands == objective_constraint_operands,
            opt_view(p.direction) == direction_or_default(direction, number_of_objectives),
            p.solution_data_types == solution_data_types,
            p.variable_constraints == 0,
            p.encoding == Encoding::PerGene,
    {
        match Self::try_new(
            solution_length,
            number_of_objectives,
            objective_constraint,
            objective_constraint_operands,
            direction,
            solution_data_types,
        ) {
            Ok(p) => p,
            Err(_) => vstd::pervasive::unreached(),
        }
    }

    /// Switches to permutation encoding: every solution is a permutation of
    /// `0..solution_length`. Builder-style.
    pub fn with_permutation_encoding(self) -> (p: Self)
        ensures
            p == (Problem { encoding: Encoding::Permutation, ..self }),
    {
        let mut p = self;
        p.encoding = Encoding::Permutation;
        p
    }

    /// Declares `count` decision-variable constraints `g(x) <= 0`. Builder-style.
    pub fn with_variable_constraints(self, count: usize) -> (p: Self)
        ensures
            p == (Problem { variable_constraints: count, ..self }),
    {
        let mut p = self;
        p.variable_constraints = count;
        p
    }

    /// Whether any constraint source is configured: objective bounds or decision-variable
    /// constraints. Dominance and every non-dominated sort gate constraint handling on it.
    pub fn has_constraints(&self) -> (b: bool)
        ensures
            b == has_constraints_spec(*self),
    {
        let bounds = match &self.objective_constraint {
            Some(c) => c.len() > 0,
            None => false,
        };
        bounds || self.variable_constraints > 0
    }

    /// A random permutation of `0..solution_length`, the solution of a permutation-encoded
    /// problem.
    pub fn generate_permutation(&self, rng: &mut SmallRng) -> (perm: Vec<usize>)
        ensures
            perm@.len() == self.solution_length,
            perm@.to_multiset() == identity_seq(self.solution_length as nat).to_multiset(),
    {
        let mut perm: Vec<usize> = Vec::new();
        let n = self.solution_length;
        while perm.len() < n
            invariant
                perm.len() <= n,
                perm@ == identity_seq(perm.len() as nat),
            decreases n - perm.len(),
        {
            let k = perm.len();
            perm.push(k);
            assert(perm@ =~= identity_seq(perm.len() as nat));
        }
        shuffle(rng, &mut perm);
        perm
    }
}

/// One candidate solution's evaluation record.
///
/// Objective values and the violation magnitude are order keys: integers whose order is the
/// order of the real values they stand for, so that `a < b` on keys exactly when the values
/// compare so. `constraint_values[i]` tells whether the bound on objective `i` holds.
#[derive(Debug)]
pub struct Solution {
    pub objective_fitness_values: Vec<i64>,
    pub constraint_values: Vec<bool>,
    pub evaluated: bool,
    pub constraint_violation: usize,
    pub constraint_violation_magnitude: i64,
    pub feasible: bool,
}

impl Solution {
    /// A record not yet evaluated: no objective values, no constraint results, no violation.
    pub fn new() -> (s: Self)
        ensures
            s.objective_fitness_values@.len() == 0,
            s.constraint_values@.len() == 0,
            !s.evaluated,
            s.constraint_violation == 0,
            s.constraint_violation_magnitude == 0,
            !s.feasible,
    {
        Solution {
            objective_fitness_values: Vec::new(),
            constraint_values: Vec::new(),
            evaluated: false,
            constraint_violation: 0,
            constraint_violation_magnitude: 0,
            feasible: false,
        }
    }

    /// Two records hold the same values.
    pub open spec fn same_record(self, other: Solution) -> bool {
        &&& self.objective_fitness_values@ == other.objective_fitness_values@
        &&& self.constraint_values@ == other.constraint_values@
        &&& self.evaluated == other.evaluated
        &&& self.constraint_violation == other.constraint_violation
        &&& self.constraint_violation_magnitude == other.constraint_violation_magnitude
        &&& self.feasible == other.feasible
    }
}

impl Clone for Solution {
    fn clone(&self) -> (s: Self)
        ensures
            s.same_record(*self),
    {
        let objs = self.objective_fitness_values.clone();
        let cvs = self.constraint_values.clone();
        assert(objs@ =~= self.objective_fitness_values@);
        assert(cvs@ =~= self.constraint_values@);
        Solution {
            objective_fitness_values: objs,
            constraint_values: cvs,
            evaluated: self.evaluated,
            constraint_violation: self.constraint_violation,
            constraint_violation_magnitude: self.constraint_violation_magnitude,
            feasible: self.feasible,
        }
    }
}

/// Whether the bound on objective `i` holds for the objective keys `objs`; an objective with
/// no bound or no operator is unconstrained.
pub open spec fn bound_holds(p: Problem, objs: Seq<i64>, i: int) -> bool {
    match (p.objective_constraint.unwrap()@[i], p.objective_constraint_operands.unwrap()@[i]) {
        (Some(bound), Some(op)) => op_holds(operand_of(op@).unwrap(), objs[i], bound),
        _ => true,
    }
}

/// The per-objective constraint results: one entry per configured bound.
pub open spec fn constraint_values_of(p: Problem, objs: Seq<i64>) -> Seq<bool> {
    match (p.objective_constraint, p.objective_constraint_operands) {
        (Some(c), Some(_)) => Seq::new(c.len() as nat, |i: int| bound_holds(p, objs, i)),
        _ => Seq::empty(),
    }
}

/// What evaluating the objective bounds needs: bounds and operators both set or both unset,
/// an operator for every bound, and for every constrained objective a valid operator and an
/// objective value.
pub open spec fn bounds_evaluable(p: Problem, objs: Seq<i64>) -> bool {
    match (p.objective_constraint, p.objective_constraint_operands) {
        (Some(c), Some(o)) => o.len() >= c.len() && forall|i: int|
            0 <= i < c.len() && (#[trigger] c@[i]) is Some && o@[i] is Some ==> i < objs.len()
                && operand_of(o@[i].unwrap()@) is Some,
        (None, None) => true,
        _ => false,
    }
}

/// How many entries of `cv` are `false`.
pub open spec fn count_violated(cv: Seq<bool>) -> nat
    decreases cv.len(),
{
    if cv.len() == 0 {
        0
    } else {
        count_violated(cv.drop_last()) + if cv.last() {
            0nat
        } else {
            1nat
        }
    }
}

/// How many entries of `g` are above zero.
pub open spec fn count_positive(g: Seq<i64>) -> nat
    decreases g.len(),
{
    if g.len() == 0 {
        0
    } else {
        count_positive(g.drop_last()) + if g.last() > 0 {
            1nat
        } else {
            0nat
        }
    }
}

proof fn lemma_count_violated_le(cv: Seq<bool>)
    ensures
        count_violated(cv) <= cv.len(),
    decreases cv.len(),
{
    if cv.len() > 0 {
        lemma_count_violated_le(cv.drop_last());
    }
}

proof fn lemma_count_positive_le(g: Seq<i64>)
    ensures
        count_positive(g) <= g.len(),
    decreases g.len(),
{
    if g.len() > 0 {
        lemma_count_positive_le(g.drop_last());
    }
}

impl Solution {
    /// Evaluates the objective bounds of `problem` on this solution's objective keys: one
    /// entry per bound, `true` where it holds.
    pub fn evaluate_constraints(&self, problem: &Problem) -> (cv: Vec<bool>)
        requires
            bounds_evaluable(*problem, self.objective_fitness_values@),
        ensures
            cv@ == constraint_values_of(*problem, self.objective_fitness_values@),
    {
        let mut out: Vec<bool> = Vec::new();
        match (&problem.objective_constraint, &problem.objective_constraint_operands) {
            (Some(constraints), Some(operands)) => {
                let mut i: usize = 0;
                while i < constraints.len()
                    invariant
                        i <= constraints.len(),
                        problem.objective_constraint == Some(*constraints),
                        problem.objective_constraint_operands == Some(*operands),
                        bounds_evaluable(*problem, self.objective_fitness_values@),
                        out@.len() == i,
                        forall|j: int|
                            0 <= j < i ==> out@[j] == bound_holds(
                                *problem,
                                self.objective_fitness_values@,
                                j,
                            ),
                    decreases constraints.len() - i,
                {
                    let holds = match (&constraints[i], &operands[i]) {
                        (Some(bound), Some(op)) => {
                            assert(constraints@[i as int] is Some);
                            let obj = self.objective_fitness_values[i];
                            match parse_operand(op) {
                                Some(ConstraintOp::Less) => obj < *bound,
                                Some(ConstraintOp::Greater) => obj > *bound,
                                Some(ConstraintOp::LessEq) => obj <= *bound,
                                Some(ConstraintOp::GreaterEq) => obj >= *bound,
                                Some(ConstraintOp::Equal) => obj == *bound,
                                Some(ConstraintOp::NotEqual) => obj != *bound,
                                None => vstd::pervasive::unreached(),
                            }
                        },
                        _ => true,
                    };
                    out.push(holds);
                    i = i + 1;
                }
                assert(out@ =~= constraint_values_of(*problem, self.objective_fitness_values@));
            },
            _ => {
                assert(out@ =~= constraint_values_of(*problem, self.objective_fitness_values@));
            },
        }
        out
    }

    /// The number of violated constraints: objective bounds that fail, plus decision-variable
    /// constraints `g(x) <= 0` whose value (given as order keys, zero at zero) is above zero.
    pub fn calculate_constraint_violation(&self, variable_constraint_values: &[i64]) -> (n: usize)
        requires
            self.constraint_values@.len() + variable_constraint_values@.len() <= usize::MAX,
        ensures
            n == count_violated(self.constraint_values@) + count_positive(
                variable_constraint_values@,
            ),
    {
        let cv = &self.constraint_values;
        let mut n: usize = 0;
        let mut i: usize = 0;
        while i < cv.len()
            invariant
                i <= cv.len(),
                n == count_violated(cv@.subrange(0, i as int)),
                n <= i,
            decreases cv.len() - i,
        {
            assert(cv@.subrange(0, i + 1).drop_last() =~= cv@.subrange(0, i as int));
            proof {
                lemma_count_violated_le(cv@.subrange(0, i as int));
            }
            if !cv[i] {
                n = n + 1;
            }
            i = i + 1;
        }
        assert(cv@.subrange(0, cv.len() as int) =~= cv@);
        let g = variable_constraint_values;
        let ghost base = n as int;
        let mut j: usize = 0;
        while j < g.len()
            invariant
                j <= g.len(),
                base == count_violated(cv@),
                n == base + count_positive(g@.subrange(0, j as int)),
                n <= base + j,
                base <= cv@.len(),
                cv@.len() + g@.len() <= usize::MAX,
            decreases g.len() - j,
        {
            assert(g@.subrange(0, j + 1).drop_last() =~= g@.subrange(0, j as int));
            if g[j] > 0 {
                n = n + 1;
            }
            j = j + 1;
        }
        assert(g@.subrange(0, g.len() as int) =~= g@);
        n
    }

    /// Feasible: no constraint is violated.
    pub fn is_feasible(&self) -> (b: bool)
        ensures
            b == (self.constraint_violation == 0),
    {
        self.constraint_violation == 0
    }

    /// Records an evaluation: the objective keys, the bound results they give, the
    /// violation count (with the decision-variable constraint values), the violation
    /// magnitude key, and feasibility.
    pub fn record_evaluation(
        &mut self,
        problem: &Problem,
        objectives: Vec<i64>,
        variable_constraint_values: &[i64],
        magnitude: i64,
    )
        requires
            bounds_evaluable(*problem, objectives@),
            constraint_values_of(*problem, objectives@).len() + variable_constraint_values@.len()
                <= usize::MAX,
        ensures
            final(self).objective_fitness_values@ == objectives@,
            final(self).evaluated,
            final(self).constraint_values@ == constraint_values_of(*problem, objectives@),
            final(self).constraint_violation == count_violated(
                constraint_values_of(*problem, objectives@),
            ) + count_positive(variable_constraint_values@),
            final(self).constraint_violation_magnitude == magnitude,
            final(self).feasible == (final(self).constraint_violation == 0),
    {
        self.objective_fitness_values = objectives;
        self.evaluated = true;
        let cv = self.evaluate_constraints(problem);
        self.constraint_values = cv;
        let v = self.calculate_constraint_violation(variable_constraint_values);
        self.constraint_violation = v;
        self.constraint_violation_magnitude = magnitude;
        let f = self.is_feasible();
        self.feasible = f;
    }
}
} // verus!
