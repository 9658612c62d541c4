//! Programs of constraints and directives, and the interpreter that runs one
//! on its inputs to build a witness.
use crate::decimal::decimal;
use crate::expression::{binds_all, eval_terms, FlatVariable, LinComb, QuadComb, Term};
use crate::field::{
    add_limbs, ge_limbs, half_limbs, lemma_top_powers, modulus, sub_limbs, two_limbs, Bn128Field, MODULUS_HI,
    MODULUS_LO, REQUIRED_BITS,
};
use crate::solvers::{greedy_bits, run_solver, signature, solve, values, Solver};
use std::collections::{BTreeMap, BTreeSet};
use vstd::arithmetic::power::pow;
use vstd::prelude::*;

verus! {

/// Runs `solver` on the values of `inputs` and binds the results to `outputs`.
#[derive(Debug)]
pub struct Directive {
    pub inputs: Vec<QuadComb>,
    pub outputs: Vec<FlatVariable>,
    pub solver: Solver,
}

/// One step of a program.
#[derive(Debug)]
pub enum Statement {
    /// `Q = L`: binds the variable of `L` when `L` is `1 · v` with `v` unbound,
    /// otherwise checks the equation.
    Constraint(QuadComb, LinComb),
    /// Binds fresh variables to what a solver finds.
    Directive(Directive),
}

/// A program: its arguments in order, and its statements in order.
#[derive(Debug)]
pub struct Prog {
    pub arguments: Vec<FlatVariable>,
    pub statements: Vec<Statement>,
}

/// The values found for the variables, by variable index.
#[derive(Debug)]
pub struct Witness(pub BTreeMap<usize, Bn128Field>);

/// Why a run stopped.
#[derive(Clone, Debug, PartialEq, Eq)]
pub enum Error {
    /// A constraint `Q = L` failed; both sides in decimal.
    UnsatisfiedConstraint { left: String, right: String },
    /// A solver failed.
    Solver,
    /// The number of inputs is not the number of arguments.
    WrongInputCount { expected: usize, received: usize },
}

/// The runner of programs.
pub struct Interpreter {
    /// Whether a bit decomposition of a value that is not a single summand is
    /// given out of range, to test the constraints that should reject it.
    should_try_out_of_range: bool,
}

/// Why a run stopped, as the model sees it.
pub enum Failure {
    Unsatisfied(int, int),
    Solver,
    WrongInputCount(int, int),
}

/// The numbers held by a map of elements.
pub open spec fn values_of(m: Map<usize, Bn128Field>) -> Map<usize, int> {
    m.map_values(|v: Bn128Field| v@)
}

/// The value of `L · R` under an assignment.
pub open spec fn quad_value(q: QuadComb, w: Map<usize, int>) -> int {
    (eval_terms(q.left@, w) * eval_terms(q.right@, w)) % modulus()
}

/// The values of a list of products under an assignment.
pub open spec fn input_values(qs: Seq<QuadComb>, w: Map<usize, int>) -> Seq<int> {
    qs.map_values(|q: QuadComb| quad_value(q, w))
}

/// The assignment with `vars[i]` bound to `vals[i]`, in order.
pub open spec fn bind_all(w: Map<usize, int>, vars: Seq<FlatVariable>, vals: Seq<int>) -> Map<
    usize,
    int,
>
    decreases vars.len(),
{
    if vars.len() == 0 {
        w
    } else {
        bind_all(w, vars.drop_last(), vals).insert(vars.last().id, vals[vars.len() - 1])
    }
}

/// The indices of a list of variables.
pub open spec fn ids(vars: Seq<FlatVariable>) -> Set<usize> {
    Set::new(|k: usize| exists|i: int| 0 <= i < vars.len() && vars[i].id == k)
}

/// A directive whose bit decomposition is given out of range when asked:
/// `Bits` over the field's width, on an input with a factor of more than one term.
pub open spec fn takes_out_of_range(d: Directive) -> bool {
    &&& d.solver == Solver::Bits(REQUIRED_BITS)
    &&& (d.inputs@[0].left@.len() > 1 || d.inputs@[0].right@.len() > 1)
}

/// The number decomposed out of range: `v + p` when it fits the field's
/// width, else `v`.
pub open spec fn out_of_range_value(v: int) -> int {
    if v + modulus() < pow(2, REQUIRED_BITS as nat) {
        v + modulus()
    } else {
        v
    }
}

/// The greedy decomposition of an integer over the weights `2^(i-1), …, 2^0`.
pub open spec fn int_bits(n: int, i: nat) -> Seq<int>
    decreases i,
{
    if i == 0 {
        seq![]
    } else if pow(2, (i - 1) as nat) <= n {
        seq![1int] + int_bits(n - pow(2, (i - 1) as nat), (i - 1) as nat)
    } else {
        seq![0int] + int_bits(n, (i - 1) as nat)
    }
}

/// `L` is `1 · v` for a variable `v` outside `keys`.
pub open spec fn assigns(l: Seq<Term>, keys: Set<usize>) -> bool {
    l.len() == 1 && l[0].1 == 1 && !keys.contains(l[0].0)
}

/// What one statement does to an assignment.
pub open spec fn step(w: Map<usize, int>, s: Statement, out_of_range: bool) -> Result<
    Map<usize, int>,
    Failure,
> {
    match s {
        Statement::Constraint(q, l) => if assigns(l@, w.dom()) {
            Ok(w.insert(l@[0].0, quad_value(q, w)))
        } else if quad_value(q, w) == eval_terms(l@, w) {
            Ok(w)
        } else {
            Err(Failure::Unsatisfied(quad_value(q, w), eval_terms(l@, w)))
        },
        Statement::Directive(d) => if out_of_range && takes_out_of_range(d) {
            Ok(
                bind_all(
                    w,
                    d.outputs@,
                    int_bits(out_of_range_value(quad_value(d.inputs@[0], w)), REQUIRED_BITS as nat),
                ),
            )
        } else {
            match solve(d.solver, input_values(d.inputs@, w)) {
                Some(out) => Ok(bind_all(w, d.outputs@, out)),
                None => Err(Failure::Solver),
            }
        },
    }
}

/// The statements run in order from an assignment, up to the first failure.
pub open spec fn run(stmts: Seq<Statement>, w: Map<usize, int>, out_of_range: bool) -> Result<
    Map<usize, int>,
    Failure,
>
    decreases stmts.len(),
{
    if stmts.len() == 0 {
        Ok(w)
    } else {
        match step(w, stmts[0], out_of_range) {
            Ok(w2) => run(stmts.drop_first(), w2, out_of_range),
            Err(e) => Err(e),
        }
    }
}

/// `ONE ↦ 1`, then each argument bound to its input.
pub open spec fn initial(args: Seq<FlatVariable>, inputs: Seq<int>) -> Map<usize, int> {
    bind_all(map![0usize => 1int], args, inputs)
}

/// The run of a program on inputs.
pub open spec fn execution(prog: Prog, inputs: Seq<int>, out_of_range: bool) -> Result<
    Map<usize, int>,
    Failure,
> {
    if inputs.len() != prog.arguments@.len() {
        Err(Failure::WrongInputCount(prog.arguments@.len() as int, inputs.len() as int))
    } else {
        run(prog.statements@, initial(prog.arguments@, inputs), out_of_range)
    }
}

/// Every variable of `L · R` is in `keys`.
pub open spec fn quad_bound(q: QuadComb, keys: Set<usize>) -> bool {
    &&& forall|i: int| 0 <= i < q.left@.len() ==> keys.contains(#[trigger] q.left@[i].0)
    &&& forall|i: int| 0 <= i < q.right@.len() ==> keys.contains(#[trigger] q.right@[i].0)
}

/// A statement can run once `keys` are bound: what it reads is bound, a
/// directive has as many inputs and outputs as its solver, and its outputs
/// are fresh and distinct.
pub open spec fn ready(s: Statement, keys: Set<usize>) -> bool {
    match s {
        Statement::Constraint(q, l) => quad_bound(q, keys) && (assigns(l@, keys) || forall|i: int|
            0 <= i < l@.len() ==> keys.contains(#[trigger] l@[i].0)),
        Statement::Directive(d) => {
            &&& d.inputs@.len() == signature(d.solver).0
            &&& d.outputs@.len() == signature(d.solver).1
            &&& forall|i: int| 0 <= i < d.inputs@.len() ==> quad_bound(#[trigger] d.inputs@[i], keys)
            &&& forall|i: int| 0 <= i < d.outputs@.len() ==> !keys.contains(#[trigger] d.outputs@[i].id)
            &&& forall|i: int, j: int|
                0 <= i < j < d.outputs@.len() ==> d.outputs@[i].id != d.outputs@[j].id
        },
    }
}

/// The variables bound once a statement has run.
pub open spec fn keys_after(s: Statement, keys: Set<usize>) -> Set<usize> {
    match s {
        Statement::Constraint(q, l) => if assigns(l@, keys) {
            keys.insert(l@[0].0)
        } else {
            keys
        },
        Statement::Directive(d) => keys.union(ids(d.outputs@)),
    }
}

/// Each statement is ready when its turn comes.
pub open spec fn scheduled(stmts: Seq<Statement>, keys: Set<usize>) -> bool
    decreases stmts.len(),
{
    stmts.len() == 0 || (ready(stmts[0], keys) && scheduled(
        stmts.drop_first(),
        keys_after(stmts[0], keys),
    ))
}

impl Prog {
    /// The program reads each variable only once it is bound, and binds each
    /// variable at most once.
    pub open spec fn well_scheduled(self) -> bool {
        scheduled(self.statements@, ids(self.arguments@).insert(0))
    }
}

/// A run error matches the model's failure.
pub open spec fn error_matches(e: Error, f: Failure) -> bool {
    match (e, f) {
        (Error::UnsatisfiedConstraint { left, right }, Failure::Unsatisfied(a, b)) => left@
            == decimal(a as nat) && right@ == decimal(b as nat),
        (Error::Solver, Failure::Solver) => true,
        (Error::WrongInputCount { expected, received }, Failure::WrongInputCount(x, y)) => expected
            == x && received == y,
        _ => false,
    }
}

proof fn lemma_values_insert(m: Map<usize, Bn128Field>, k: usize, v: Bn128Field)
    ensures
        values_of(m.insert(k, v)) == values_of(m).insert(k, v@),
{
    assert(values_of(m.insert(k, v)) =~= values_of(m).insert(k, v@));
}

proof fn lemma_bind_all_dom(w: Map<usize, int>, vars: Seq<FlatVariable>, vals: Seq<int>)
    ensures
        bind_all(w, vars, vals).dom() == w.dom().union(ids(vars)),
    decreases vars.len(),
{
    if vars.len() > 0 {
        lemma_bind_all_dom(w, vars.drop_last(), vals);
        assert forall|k: usize| ids(vars).contains(k) <==> (ids(vars.drop_last()).contains(k) || k
            == vars.last().id) by {
            if ids(vars).contains(k) {
                let i = choose|i: int| 0 <= i < vars.len() && vars[i].id == k;
                if i < vars.len() - 1 {
                    assert(vars.drop_last()[i] == vars[i]);
                }
            }
            if ids(vars.drop_last()).contains(k) {
                let i = choose|i: int| 0 <= i < vars.drop_last().len() && vars.drop_last()[i].id == k;
                assert(vars[i] == vars.drop_last()[i]);
            }
        }
        assert(bind_all(w, vars, vals).dom() =~= w.dom().union(ids(vars)));
    } else {
        assert(ids(vars) =~= Set::<usize>::empty());
        assert(w.dom().union(ids(vars)) =~= w.dom());
    }
}

/// A step that succeeds binds what `keys_after` says.
proof fn lemma_step_dom(w: Map<usize, int>, s: Statement, out_of_range: bool)
    requires
        step(w, s, out_of_range) is Ok,
    ensures
        step(w, s, out_of_range)->Ok_0.dom() == keys_after(s, w.dom()),
{
    match s {
        Statement::Constraint(q, l) => {},
        Statement::Directive(d) => {
            if out_of_range && takes_out_of_range(d) {
                lemma_bind_all_dom(
                    w,
                    d.outputs@,
                    int_bits(out_of_range_value(quad_value(d.inputs@[0], w)), REQUIRED_BITS as nat),
                );
            } else {
                let out = solve(d.solver, input_values(d.inputs@, w));
                lemma_bind_all_dom(w, d.outputs@, out->0);
            }
        },
    }
}

impl LinComb {
    /// The value under a witness, or an error when a variable is unbound.
    pub fn evaluate(&self, witness: &BTreeMap<usize, Bn128Field>) -> (r: Result<Bn128Field, ()>)
        ensures
            binds_all(self@, values_of(witness@)) ==> r is Ok && r->Ok_0@ == eval_terms(
                self@,
                values_of(witness@),
            ),
            !binds_all(self@, values_of(witness@)) ==> r is Err,
    {
        let ghost w = values_of(witness@);
        let mut acc = Bn128Field::zero();
        let mut i: usize = 0;
        while i < self.0.len()
            invariant
                i <= self.0@.len(),
                w == values_of(witness@),
                binds_all(self@.take(i as int), w),
                acc@ == eval_terms(self@.take(i as int), w),
            decreases self.0@.len() - i,
        {
            let (var, mult) = self.0[i];
            match witness.get(&var.id) {
                Some(v) => {
                    let t = v.mul(&mult);
                    acc = acc.add(&t);
                    proof {
                        let q = self@.take(i + 1);
                        assert(q.drop_last() =~= self@.take(i as int));
                        assert(q.last() == self@[i as int]);
                        assert(w[var.id] == v@);
                        vstd::arithmetic::div_mod::lemma_add_mod_noop_right(
                            eval_terms(self@.take(i as int), w),
                            v@ * mult@,
                            modulus(),
                        );
                        assert(v@ * mult@ == mult@ * v@) by (nonlinear_arith);
                        assert forall|j: int| 0 <= j < q.len() implies w.contains_key(
                            #[trigger] q[j].0,
                        ) by {
                            if j < i {
                                assert(q[j] == self@.take(i as int)[j]);
                            }
                        }
                    }
                },
                None => {
                    assert(!binds_all(self@, w)) by {
                        assert(self@[i as int].0 == var.id);
                    }
                    return Err(());
                },
            }
            i = i + 1;
        }
        proof {
            assert(self@.take(i as int) =~= self@);
        }
        Ok(acc)
    }
}

impl QuadComb {
    /// The value `L(w) · R(w)` under a witness, or an error when a variable is unbound.
    pub fn evaluate(&self, witness: &BTreeMap<usize, Bn128Field>) -> (r: Result<Bn128Field, ()>)
        ensures
            quad_bound(*self, values_of(witness@).dom()) ==> r is Ok && r->Ok_0@ == quad_value(
                *self,
                values_of(witness@),
            ),
            !quad_bound(*self, values_of(witness@).dom()) ==> r is Err,
    {
        let left = match self.left.evaluate(witness) {
            Ok(v) => v,
            Err(e) => return Err(e),
        };
        let right = match self.right.evaluate(witness) {
            Ok(v) => v,
            Err(e) => return Err(e),
        };
        Ok(left.mul(&right))
    }
}

/// The message of an error.
pub open spec fn error_text(e: Error) -> Seq<char> {
    match e {
        Error::UnsatisfiedConstraint { left, right } => "Expected "@ + left@ + " to equal "@
            + right@,
        Error::Solver => "Solver failed"@,
        Error::WrongInputCount { expected, received } => "Program takes "@ + decimal(
            expected as nat,
        ) + if expected == 1 {
            " input"@
        } else {
            " inputs"@
        } + " but was passed "@ + decimal(received as nat) + if received == 1 {
            " value"@
        } else {
            " values"@
        },
    }
}

impl Error {
    /// Describes the error: `Expected {left} to equal {right}`, or `Program
    /// takes {n} input[s] but was passed {m} value[s]`.
    pub fn to_string(&self) -> (r: String)
        ensures
            r@ == error_text(*self),
    {
        match self {
            Error::UnsatisfiedConstraint { left, right } => {
                let mut s = String::from_str("Expected ");
                s.append(left.as_str());
                s.append(" to equal ");
                s.append(right.as_str());
                s
            },
            Error::Solver => {
                proof { reveal_strlit("Solver failed"); }
                String::from_str("Solver failed")
            },
            Error::WrongInputCount { expected, received } => {
                let mut s = String::from_str("Program takes ");
                s.append(crate::decimal::usize_to_decimal(*expected).as_str());
                s.append(if *expected == 1 { " input" } else { " inputs" });
                s.append(" but was passed ");
                s.append(crate::decimal::usize_to_decimal(*received).as_str());
                s.append(if *received == 1 { " value" } else { " values" });
                assert(s@ =~= error_text(*self));
                s
            },
        }
    }
}

/// The out-of-range bit decomposition of a value, most significant first.
fn out_of_range_bits(v: Bn128Field) -> (r: Vec<Bn128Field>)
    ensures
        values(r@) == int_bits(out_of_range_value(v@), REQUIRED_BITS as nat),
        r@.len() == REQUIRED_BITS,
{
    let (vlo, vhi) = v.limbs();
    let (clo, chi) = add_limbs(vlo, vhi, MODULUS_LO, MODULUS_HI);
    let top: u128 = 0x4000_0000_0000_0000_0000_0000_0000_0000;
    proof {
        lemma_top_powers();
    }
    let (mut nlo, mut nhi) = if ge_limbs(clo, chi, 0, top) {
        (vlo, vhi)
    } else {
        (clo, chi)
    };
    let ghost n0 = two_limbs(nlo, nhi);
    assert(n0 == out_of_range_value(v@));
    let mut wlo: u128 = 0;
    let mut whi: u128 = 0x2000_0000_0000_0000_0000_0000_0000_0000;
    let mut res: Vec<Bn128Field> = Vec::new();
    let mut i: usize = REQUIRED_BITS;
    proof {
        assert(values(res@) + int_bits(two_limbs(nlo, nhi), i as nat) =~= int_bits(
            n0,
            REQUIRED_BITS as nat,
        ));
    }
    while i > 0
        invariant
            i <= REQUIRED_BITS,
            res@.len() + i == REQUIRED_BITS,
            i > 0 ==> two_limbs(wlo, whi) == pow(2, (i - 1) as nat),
            0 <= two_limbs(nlo, nhi) < two_limbs(0, 0x4000_0000_0000_0000_0000_0000_0000_0000),
            values(res@) + int_bits(two_limbs(nlo, nhi), i as nat) == int_bits(
                n0,
                REQUIRED_BITS as nat,
            ),
        decreases i,
    {
        let ghost prev = res@;
        let ghost m = two_limbs(nlo, nhi);
        let fits = ge_limbs(nlo, nhi, wlo, whi);
        if fits {
            let (a, b) = sub_limbs(nlo, nhi, wlo, whi);
            nlo = a;
            nhi = b;
            res.push(Bn128Field::one());
        } else {
            res.push(Bn128Field::zero());
        }
        proof {
            assert(values(res@) =~= values(prev) + seq![if fits { 1int } else { 0int }]);
            assert(values(res@) + int_bits(two_limbs(nlo, nhi), (i - 1) as nat) =~= values(prev)
                + int_bits(m, i as nat));
            if i > 1 {
                let k = (i - 2) as nat;
                assert(pow(2, k + 1) == 2 * pow(2, k)) by {
                    reveal(pow);
                }
            }
        }
        let (a, b) = half_limbs(wlo, whi);
        wlo = a;
        whi = b;
        i = i - 1;
    }
    proof {
        assert(values(res@) =~= int_bits(n0, REQUIRED_BITS as nat));
    }
    res
}

/// The bit decomposition has one bit per weight.
proof fn lemma_greedy_len(n: int, i: nat)
    ensures
        greedy_bits(n, i).0.len() == i,
    decreases i,
{
    if i > 0 {
        lemma_greedy_len(n - crate::solvers::field_pow2((i - 1) as nat), (i - 1) as nat);
        lemma_greedy_len(n, (i - 1) as nat);
    }
}

/// Binds `outputs[j]` to `vals[j]` in order.
fn bind_outputs(
    witness: &mut BTreeMap<usize, Bn128Field>,
    outputs: &Vec<FlatVariable>,
    vals: &Vec<Bn128Field>,
)
    requires
        vals@.len() >= outputs@.len(),
    ensures
        values_of(final(witness)@) == bind_all(values_of(old(witness)@), outputs@, values(vals@)),
{
    let ghost w0 = values_of(witness@);
    let mut j: usize = 0;
    proof {
        assert(outputs@.take(0) =~= Seq::<FlatVariable>::empty());
    }
    while j < outputs.len()
        invariant
            j <= outputs@.len(),
            vals@.len() >= outputs@.len(),
            values_of(witness@) == bind_all(w0, outputs@.take(j as int), values(vals@)),
        decreases outputs@.len() - j,
    {
        let ghost before = witness@;
        witness.insert(outputs[j].id, vals[j]);
        proof {
            lemma_values_insert(before, outputs@[j as int].id, vals@[j as int]);
            let q = outputs@.take(j + 1);
            assert(q.drop_last() =~= outputs@.take(j as int));
            assert(q.last() == outputs@[j as int]);
        }
        j = j + 1;
    }
    proof {
        assert(outputs@.take(j as int) =~= outputs@);
    }
}

impl Default for Interpreter {
    fn default() -> (r: Interpreter)
        ensures
            !r.tries_out_of_range(),
    {
        Interpreter { should_try_out_of_range: false }
    }
}

impl Interpreter {
    /// Whether out-of-range bit decompositions are given where they can be.
    pub closed spec fn tries_out_of_range(&self) -> bool {
        self.should_try_out_of_range
    }

    /// An interpreter that gives out-of-range bit decompositions where it can.
    pub fn try_out_of_range() -> (r: Interpreter)
        ensures
            r.tries_out_of_range(),
    {
        Interpreter { should_try_out_of_range: true }
    }

    /// An error unless there are as many inputs as arguments.
    fn check_inputs(program: &Prog, inputs: &Vec<Bn128Field>) -> (r: Result<(), Error>)
        ensures
            r is Ok <==> program.arguments@.len() == inputs@.len(),
            r is Err ==> (r->Err_0 matches Error::WrongInputCount { expected, received } && expected
                == program.arguments@.len() && received == inputs@.len()),
    {
        if program.arguments.len() == inputs.len() {
            Ok(())
        } else {
            Err(
                Error::WrongInputCount {
                    expected: program.arguments.len(),
                    received: inputs.len(),
                },
            )
        }
    }

    /// Runs a solver on inputs of the right number.
    pub fn execute_solver(&self, s: &Solver, inputs: &Vec<Bn128Field>) -> (r: Result<
        Vec<Bn128Field>,
        String,
    >)
        requires
            inputs@.len() == signature(*s).0,
        ensures
            match solve(*s, values(inputs@)) {
                Some(out) => r is Ok && values(r->Ok_0@) == out,
                None => r is Err,
            },
    {
        run_solver(s, inputs)
    }

    /// Runs a program on its inputs: binds `ONE` and the arguments, then runs
    /// each statement in order, and gives the witness or the first failure.
    pub fn execute(&self, program: &Prog, inputs: &Vec<Bn128Field>) -> (r: Result<Witness, Error>)
        requires
            inputs@.len() == program.arguments@.len() ==> program.well_scheduled(),
        ensures
            match execution(*program, values(inputs@), self.tries_out_of_range()) {
                Ok(m) => r is Ok && values_of(r->Ok_0.0@) == m,
                Err(f) => r is Err && error_matches(r->Err_0, f),
            },
    {
        match Self::check_inputs(program, inputs) {
            Ok(()) => {},
            Err(e) => return Err(e),
        }
        let mut witness: BTreeMap<usize, Bn128Field> = BTreeMap::new();
        witness.insert(0, Bn128Field::one());
        proof {
            assert(values_of(witness@) =~= map![0usize => 1int]);
        }
        bind_outputs(&mut witness, &program.arguments, inputs);
        let ghost stmts = program.statements@;
        let ghost oor = self.should_try_out_of_range;
        proof {
            lemma_bind_all_dom(map![0usize => 1int], program.arguments@, values(inputs@));
            assert(values_of(witness@).dom() =~= ids(program.arguments@).insert(0));
            assert(stmts.skip(0) =~= stmts);
        }
        let mut i: usize = 0;
        while i < program.statements.len()
            invariant
                i <= stmts.len(),
                stmts == program.statements@,
                program.arguments@.len() == inputs@.len(),
                values(inputs@).len() == inputs@.len(),
                oor == self.should_try_out_of_range,
                run(stmts, initial(program.arguments@, values(inputs@)), oor) == run(
                    stmts.skip(i as int),
                    values_of(witness@),
                    oor,
                ),
                scheduled(stmts.skip(i as int), values_of(witness@).dom()),
            decreases stmts.len() - i,
        {
            let ghost w = values_of(witness@);
            let ghost rest = stmts.skip(i as int);
            proof {
                assert(w.dom() =~= witness@.dom());
                assert(rest[0] == stmts[i as int]);
                assert(rest.drop_first() =~= stmts.skip(i + 1));
            }
            match &program.statements[i] {
                Statement::Constraint(quad, lin) => {
                    if lin.is_assignee(&witness) {
                        let val = match quad.evaluate(&witness) {
                            Ok(v) => v,
                            Err(_) => return Err(Error::Solver),
                        };
                        let ghost before = witness@;
                        witness.insert(lin.0[0].0.id, val);
                        proof {
                            lemma_values_insert(before, lin@[0].0, val);
                        }
                    } else {
                        let lhs = match quad.evaluate(&witness) {
                            Ok(v) => v,
                            Err(_) => return Err(Error::Solver),
                        };
                        let rhs = match lin.evaluate(&witness) {
                            Ok(v) => v,
                            Err(_) => return Err(Error::Solver),
                        };
                        if !lhs.equals(&rhs) {
                            let left = lhs.to_dec_string();
                            let right = rhs.to_dec_string();
                            let e = Error::UnsatisfiedConstraint { left, right };
                            assert(run(rest, w, oor) == Err::<Map<usize, int>, Failure>(
                                Failure::Unsatisfied(lhs@, rhs@),
                            ));
                            assert(error_matches(e, Failure::Unsatisfied(lhs@, rhs@)));
                            return Err(e);
                        }
                    }
                },
                Statement::Directive(d) => {
                    let out_of_range = self.should_try_out_of_range && match d.solver {
                        Solver::Bits(w) => w == REQUIRED_BITS,
                        _ => false,
                    } && (d.inputs[0].left.0.len() > 1 || d.inputs[0].right.0.len() > 1);
                    if out_of_range {
                        let value = match d.inputs[0].evaluate(&witness) {
                            Ok(v) => v,
                            Err(_) => return Err(Error::Solver),
                        };
                        let bits = out_of_range_bits(value);
                        bind_outputs(&mut witness, &d.outputs, &bits);
                    } else {
                        let mut vals: Vec<Bn128Field> = Vec::new();
                        let mut j: usize = 0;
                        while j < d.inputs.len()
                            invariant
                                j <= d.inputs@.len(),
                                w == values_of(witness@),
                                ready(Statement::Directive(*d), w.dom()),
                                values(vals@) == input_values(d.inputs@.take(j as int), w),
                            decreases d.inputs@.len() - j,
                        {
                            let v = match d.inputs[j].evaluate(&witness) {
                                Ok(v) => v,
                                Err(_) => return Err(Error::Solver),
                            };
                            let ghost prev = vals@;
                            vals.push(v);
                            proof {
                                assert(values(vals@) =~= values(prev).push(v@));
                                assert(input_values(d.inputs@.take(j + 1), w) =~= input_values(
                                    d.inputs@.take(j as int),
                                    w,
                                ).push(quad_value(d.inputs@[j as int], w)));
                            }
                            j = j + 1;
                        }
                        proof {
                            assert(d.inputs@.take(j as int) =~= d.inputs@);
                        }
                        match run_solver(&d.solver, &vals) {
                            Ok(res) => {
                                proof {
                                    let out = solve(d.solver, values(vals@));
                                    assert(out is Some);
                                    match d.solver {
                                        Solver::Bits(bw) => {
                                            lemma_greedy_len(values(vals@)[0], bw as nat);
                                        },
                                        _ => {},
                                    }
                                    assert(out->0.len() == signature(d.solver).1);
                                    assert(values(res@).len() == res@.len());
                                }
                                bind_outputs(&mut witness, &d.outputs, &res);
                            },
                            Err(_) => return Err(Error::Solver),
                        }
                    }
                },
            }
            proof {
                lemma_step_dom(w, rest[0], oor);
            }
            i = i + 1;
        }
        proof {
            assert(stmts.skip(i as int) =~= Seq::<Statement>::empty());
        }
        Ok(Witness(witness))
    }
}

/// `m` keeps every binding of `w`.
pub open spec fn extends(m: Map<usize, int>, w: Map<usize, int>) -> bool {
    forall|k: usize| #[trigger] w.contains_key(k) ==> m.contains_key(k) && m[k] == w[k]
}

/// Every variable that the statement reads or binds is in `keys`.
pub open spec fn covered(s: Statement, keys: Set<usize>) -> bool {
    match s {
        Statement::Constraint(q, l) => quad_bound(q, keys) && forall|i: int|
            0 <= i < l@.len() ==> keys.contains(#[trigger] l@[i].0),
        Statement::Directive(d) => (forall|i: int|
            0 <= i < d.inputs@.len() ==> quad_bound(#[trigger] d.inputs@[i], keys)) && (forall|i: int|
            0 <= i < d.outputs@.len() ==> keys.contains(#[trigger] d.outputs@[i].id)),
    }
}

/// A constraint holds under `m`; other statements hold trivially.
pub open spec fn holds(s: Statement, m: Map<usize, int>) -> bool {
    match s {
        Statement::Constraint(q, l) => quad_value(q, m) == eval_terms(l@, m),
        Statement::Directive(_) => true,
    }
}

proof fn lemma_bind_all_fresh(w: Map<usize, int>, vars: Seq<FlatVariable>, vals: Seq<int>)
    requires
        forall|i: int| 0 <= i < vars.len() ==> !w.contains_key(#[trigger] vars[i].id),
    ensures
        extends(bind_all(w, vars, vals), w),
    decreases vars.len(),
{
    if vars.len() > 0 {
        let d = vars.drop_last();
        assert forall|i: int| 0 <= i < d.len() implies !w.contains_key(#[trigger] d[i].id) by {
            assert(d[i] == vars[i]);
        }
        lemma_bind_all_fresh(w, d, vals);
        assert(!w.contains_key(vars[vars.len() - 1].id));
    }
}

proof fn lemma_eval_extends(t: Seq<Term>, w1: Map<usize, int>, w2: Map<usize, int>)
    requires
        binds_all(t, w1),
        extends(w2, w1),
    ensures
        eval_terms(t, w1) == eval_terms(t, w2),
        binds_all(t, w2),
    decreases t.len(),
{
    if t.len() > 0 {
        let d = t.drop_last();
        assert(binds_all(d, w1)) by {
            assert forall|i: int| 0 <= i < d.len() implies w1.contains_key(#[trigger] d[i].0) by {
                assert(d[i] == t[i]);
            }
        }
        lemma_eval_extends(d, w1, w2);
        assert(w1.contains_key(t[t.len() - 1].0));
    }
}

proof fn lemma_quad_extends(q: QuadComb, w1: Map<usize, int>, w2: Map<usize, int>)
    requires
        quad_bound(q, w1.dom()),
        extends(w2, w1),
    ensures
        quad_value(q, w1) == quad_value(q, w2),
        quad_bound(q, w2.dom()),
{
    lemma_eval_extends(q.left@, w1, w2);
    lemma_eval_extends(q.right@, w1, w2);
}

/// A ready statement that runs keeps every binding, binds all it mentions,
/// and, for a constraint, holds afterwards.
proof fn lemma_step_sound(w: Map<usize, int>, s: Statement, out_of_range: bool)
    requires
        ready(s, w.dom()),
        step(w, s, out_of_range) is Ok,
    ensures
        extends(step(w, s, out_of_range)->Ok_0, w),
        covered(s, step(w, s, out_of_range)->Ok_0.dom()),
        holds(s, step(w, s, out_of_range)->Ok_0),
{
    let w2 = step(w, s, out_of_range)->Ok_0;
    lemma_step_dom(w, s, out_of_range);
    match s {
        Statement::Constraint(q, l) => {
            if assigns(l@, w.dom()) {
                let v = l@[0].0;
                let val = quad_value(q, w);
                assert(extends(w2, w));
                lemma_quad_extends(q, w, w2);
                assert(l@.drop_last() =~= Seq::<Term>::empty());
                assert(eval_terms(l@.drop_last(), w2) == 0);
                assert(l@.last() == l@[0]);
                assert(w2[v] == val);
                assert(1 * val == val);
                vstd::arithmetic::div_mod::lemma_small_mod(val as nat, modulus() as nat);
                assert(eval_terms(l@, w2) == (0 + 1 * w2[v]) % modulus());
            }
        },
        Statement::Directive(d) => {
            if out_of_range && takes_out_of_range(d) {
                lemma_bind_all_fresh(
                    w,
                    d.outputs@,
                    int_bits(out_of_range_value(quad_value(d.inputs@[0], w)), REQUIRED_BITS as nat),
                );
            } else {
                lemma_bind_all_fresh(w, d.outputs@, solve(d.solver, input_values(d.inputs@, w))->0);
            }
            assert forall|i: int| 0 <= i < d.outputs@.len() implies w2.dom().contains(
                #[trigger] d.outputs@[i].id,
            ) by {
                assert(ids(d.outputs@).contains(d.outputs@[i].id));
            }
            assert forall|i: int| 0 <= i < d.inputs@.len() implies quad_bound(
                #[trigger] d.inputs@[i],
                w2.dom(),
            ) by {
                lemma_quad_extends(d.inputs@[i], w, w2);
            }
        },
    }
}

proof fn lemma_holds_extends(s: Statement, w1: Map<usize, int>, w2: Map<usize, int>)
    requires
        covered(s, w1.dom()),
        holds(s, w1),
        extends(w2, w1),
    ensures
        covered(s, w2.dom()),
        holds(s, w2),
{
    match s {
        Statement::Constraint(q, l) => {
            lemma_quad_extends(q, w1, w2);
            lemma_eval_extends(l@, w1, w2);
        },
        Statement::Directive(d) => {
            assert forall|i: int| 0 <= i < d.inputs@.len() implies quad_bound(
                #[trigger] d.inputs@[i],
                w2.dom(),
            ) by {
                lemma_quad_extends(d.inputs@[i], w1, w2);
            }
        },
    }
}

proof fn lemma_run_sound(stmts: Seq<Statement>, w: Map<usize, int>, out_of_range: bool)
    requires
        scheduled(stmts, w.dom()),
        run(stmts, w, out_of_range) is Ok,
    ensures
        extends(run(stmts, w, out_of_range)->Ok_0, w),
        forall|i: int|
            0 <= i < stmts.len() ==> covered(
                #[trigger] stmts[i],
                run(stmts, w, out_of_range)->Ok_0.dom(),
            ) && holds(stmts[i], run(stmts, w, out_of_range)->Ok_0),
    decreases stmts.len(),
{
    if stmts.len() > 0 {
        let m = run(stmts, w, out_of_range)->Ok_0;
        let w2 = step(w, stmts[0], out_of_range)->Ok_0;
        lemma_step_sound(w, stmts[0], out_of_range);
        lemma_step_dom(w, stmts[0], out_of_range);
        let rest = stmts.drop_first();
        lemma_run_sound(rest, w2, out_of_range);
        lemma_holds_extends(stmts[0], w2, m);
        assert forall|i: int| 0 <= i < stmts.len() implies covered(#[trigger] stmts[i], m.dom())
            && holds(stmts[i], m) by {
            if i > 0 {
                assert(stmts[i] == rest[i - 1]);
            }
        }
    }
}

/// When a well-scheduled program runs to a witness, every constraint of the
/// program holds on that witness.
pub proof fn lemma_round_trip(prog: Prog, inputs: Seq<int>, out_of_range: bool)
    requires
        prog.well_scheduled(),
        execution(prog, inputs, out_of_range) is Ok,
    ensures
        forall|i: int|
            0 <= i < prog.statements@.len() ==> holds(
                #[trigger] prog.statements@[i],
                execution(prog, inputs, out_of_range)->Ok_0,
            ),
{
    let w = initial(prog.arguments@, inputs);
    lemma_bind_all_dom(map![0usize => 1int], prog.arguments@, inputs);
    assert(w.dom() =~= ids(prog.arguments@).insert(0));
    lemma_run_sound(prog.statements@, w, out_of_range);
}

/// When a well-scheduled program runs to a witness, every variable that a
/// statement mentions is bound in it, and no binding made along the way was
/// replaced: the witness keeps `ONE`'s and the arguments' values and every
/// value bound later.
pub proof fn lemma_witness_complete(prog: Prog, inputs: Seq<int>, out_of_range: bool)
    requires
        prog.well_scheduled(),
        execution(prog, inputs, out_of_range) is Ok,
    ensures
        extends(execution(prog, inputs, out_of_range)->Ok_0, initial(prog.arguments@, inputs)),
        forall|i: int|
            0 <= i < prog.statements@.len() ==> covered(
                #[trigger] prog.statements@[i],
                execution(prog, inputs, out_of_range)->Ok_0.dom(),
            ),
{
    let w = initial(prog.arguments@, inputs);
    lemma_bind_all_dom(map![0usize => 1int], prog.arguments@, inputs);
    assert(w.dom() =~= ids(prog.arguments@).insert(0));
    lemma_run_sound(prog.statements@, w, out_of_range);
}

/// Whether every variable of `l` is in `keys`.
fn terms_bound(l: &LinComb, keys: &BTreeSet<usize>) -> (r: bool)
    ensures
        r == (forall|i: int| 0 <= i < l@.len() ==> keys@.contains(#[trigger] l@[i].0)),
{
    let mut i: usize = 0;
    while i < l.0.len()
        invariant
            i <= l.0@.len(),
            forall|j: int| 0 <= j < i ==> keys@.contains(#[trigger] l@[j].0),
        decreases l.0@.len() - i,
    {
        if !keys.contains(&l.0[i].0.id) {
            assert(!keys@.contains(l@[i as int].0));
            return false;
        }
        i = i + 1;
    }
    true
}

/// Whether every variable of `q` is in `keys`.
fn quad_bound_in(q: &QuadComb, keys: &BTreeSet<usize>) -> (r: bool)
    ensures
        r == quad_bound(*q, keys@),
{
    terms_bound(&q.left, keys) && terms_bound(&q.right, keys)
}

/// Whether a statement is ready once `keys` are bound.
fn statement_ready(s: &Statement, keys: &BTreeSet<usize>) -> (r: bool)
    ensures
        r == ready(*s, keys@),
{
    match s {
        Statement::Constraint(q, l) => {
            let assigning = l.0.len() == 1 && l.0[0].1.is_one() && !keys.contains(&l.0[0].0.id);
            quad_bound_in(q, keys) && (assigning || terms_bound(l, keys))
        },
        Statement::Directive(d) => {
            let (n_in, n_out) = d.solver.get_signature();
            if d.inputs.len() != n_in || d.outputs.len() != n_out {
                return false;
            }
            let mut i: usize = 0;
            while i < d.inputs.len()
                invariant
                    *s == Statement::Directive(*d),
                    i <= d.inputs@.len(),
                    forall|j: int| 0 <= j < i ==> quad_bound(#[trigger] d.inputs@[j], keys@),
                decreases d.inputs@.len() - i,
            {
                if !quad_bound_in(&d.inputs[i], keys) {
                    assert(!quad_bound(d.inputs@[i as int], keys@));
                    return false;
                }
                i = i + 1;
            }
            let mut j: usize = 0;
            while j < d.outputs.len()
                invariant
                    *s == Statement::Directive(*d),
                    d.inputs@.len() == signature(d.solver).0,
                    d.outputs@.len() == signature(d.solver).1,
                    forall|i: int| 0 <= i < d.inputs@.len() ==> quad_bound(#[trigger] d.inputs@[i], keys@),
                    j <= d.outputs@.len(),
                    forall|a: int| 0 <= a < j ==> !keys@.contains(#[trigger] d.outputs@[a].id),
                    forall|a: int, b: int|
                        0 <= a < b < j ==> d.outputs@[a].id != d.outputs@[b].id,
                decreases d.outputs@.len() - j,
            {
                if keys.contains(&d.outputs[j].id) {
                    assert(keys@.contains(d.outputs@[j as int].id));
                    return false;
                }
                let mut k: usize = 0;
                while k < j
                    invariant
                        *s == Statement::Directive(*d),
                        k <= j,
                        j < d.outputs@.len(),
                        forall|a: int| 0 <= a < k ==> d.outputs@[a].id != d.outputs@[j as int].id,
                    decreases j - k,
                {
                    if d.outputs[k].id == d.outputs[j].id {
                        assert(d.outputs@[k as int].id == d.outputs@[j as int].id);
                        return false;
                    }
                    k = k + 1;
                }
                j = j + 1;
            }
            true
        },
    }
}

/// Adds what a statement binds to `keys`.
fn advance(s: &Statement, keys: &mut BTreeSet<usize>)
    ensures
        final(keys)@ == keys_after(*s, old(keys)@),
{
    match s {
        Statement::Constraint(q, l) => {
            if l.0.len() == 1 && l.0[0].1.is_one() && !keys.contains(&l.0[0].0.id) {
                keys.insert(l.0[0].0.id);
            }
        },
        Statement::Directive(d) => {
            let ghost k0 = keys@;
            let mut j: usize = 0;
            proof {
                assert(ids(d.outputs@.take(0)) =~= Set::<usize>::empty());
                assert(keys@ =~= k0.union(ids(d.outputs@.take(0))));
            }
            while j < d.outputs.len()
                invariant
                    j <= d.outputs@.len(),
                    keys@ == k0.union(ids(d.outputs@.take(j as int))),
                decreases d.outputs@.len() - j,
            {
                keys.insert(d.outputs[j].id);
                proof {
                    let q = d.outputs@.take(j + 1);
                    assert forall|x: usize| #[trigger] ids(q).contains(x) <==> (ids(
                        d.outputs@.take(j as int),
                    ).contains(x) || x == d.outputs@[j as int].id) by {
                        if ids(q).contains(x) {
                            let a = choose|a: int| 0 <= a < q.len() && q[a].id == x;
                            if a < j {
                                assert(d.outputs@.take(j as int)[a] == q[a]);
                            }
                        }
                        if ids(d.outputs@.take(j as int)).contains(x) {
                            let a = choose|a: int|
                                0 <= a < d.outputs@.take(j as int).len() && d.outputs@.take(
                                    j as int,
                                )[a].id == x;
                            assert(q[a] == d.outputs@.take(j as int)[a]);
                        }
                        if x == d.outputs@[j as int].id {
                            assert(q[j as int] == d.outputs@[j as int]);
                        }
                    }
                    assert(keys@ =~= k0.union(ids(q)));
                }
                j = j + 1;
            }
            proof {
                assert(d.outputs@.take(j as int) =~= d.outputs@);
            }
        },
    }
}

impl Prog {
    /// Whether the program is well scheduled: the condition under which it
    /// can be run.
    pub fn is_well_scheduled(&self) -> (r: bool)
        ensures
            r == self.well_scheduled(),
    {
        let mut keys: BTreeSet<usize> = BTreeSet::new();
        keys.insert(0);
        let mut a: usize = 0;
        proof {
            assert(keys@ =~= ids(self.arguments@.take(0)).insert(0));
        }
        while a < self.arguments.len()
            invariant
                a <= self.arguments@.len(),
                keys@ == ids(self.arguments@.take(a as int)).insert(0),
            decreases self.arguments@.len() - a,
        {
            keys.insert(self.arguments[a].id);
            proof {
                let q = self.arguments@.take(a + 1);
                assert forall|x: usize| #[trigger] ids(q).contains(x) <==> (ids(
                    self.arguments@.take(a as int),
                ).contains(x) || x == self.arguments@[a as int].id) by {
                    if ids(q).contains(x) {
                        let b = choose|b: int| 0 <= b < q.len() && q[b].id == x;
                        if b < a {
                            assert(self.arguments@.take(a as int)[b] == q[b]);
                        }
                    }
                    if ids(self.arguments@.take(a as int)).contains(x) {
                        let b = choose|b: int|
                            0 <= b < self.arguments@.take(a as int).len() && self.arguments@.take(
                                a as int,
                            )[b].id == x;
                        assert(q[b] == self.arguments@.take(a as int)[b]);
                    }
                    if x == self.arguments@[a as int].id {
                        assert(q[a as int] == self.arguments@[a as int]);
                    }
                }
                assert(keys@ =~= ids(q).insert(0));
            }
            a = a + 1;
        }
        proof {
            assert(self.arguments@.take(a as int) =~= self.arguments@);
            assert(self.statements@.skip(0) =~= self.statements@);
        }
        let ghost stmts = self.statements@;
        let mut i: usize = 0;
        while i < self.statements.len()
            invariant
                i <= stmts.len(),
                stmts == self.statements@,
                self.well_scheduled() == scheduled(stmts.skip(i as int), keys@),
            decreases stmts.len() - i,
        {
            proof {
                assert(stmts.skip(i as int)[0] == stmts[i as int]);
                assert(stmts.skip(i as int).drop_first() =~= stmts.skip(i + 1));
            }
            if !statement_ready(&self.statements[i], &keys) {
                return false;
            }
            advance(&self.statements[i], &mut keys);
            i = i + 1;
        }
        proof {
            assert(stmts.skip(i as int) =~= Seq::<Statement>::empty());
        }
        true
    }
}

} // verus!
