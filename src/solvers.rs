//! The hint functions that directives run to find values for fresh variables.
use crate::field::{field_inverse, lemma_top_powers, modulus, Bn128Field, REQUIRED_BITS};
use vstd::arithmetic::div_mod::{
    lemma_add_mod_noop, lemma_mul_mod_noop_left, lemma_mul_mod_noop_right, lemma_small_mod,
    lemma_sub_mod_noop,
};
use vstd::arithmetic::power::{lemma_pow_increases, pow};
use vstd::prelude::*;

verus! {

/// The closed set of hint functions.
#[derive(Clone, Copy, Debug, PartialEq, Eq, Structural, Hash)]
pub enum Solver {
    /// `[x] -> [x ≠ 0, x⁻¹ or 1]`
    ConditionEq,
    /// `[x] -> ` the bits of `x`, most significant first
    Bits(usize),
    /// `[x, y] -> [x + y − 2xy]`
    Xor,
    /// `[x, y] -> [x + y − xy]`
    Or,
    /// `[a, b, c] -> [bc − (2bc − b − c)a]`
    ShaAndXorAndXorAnd,
    /// `[a, b, c] -> [a(b − c) + c]`
    ShaCh,
    /// `[a, b] -> [a / b]`
    Div,
}

/// How many values a solver takes and how many it gives.
pub open spec fn signature(s: Solver) -> (int, int) {
    match s {
        Solver::ConditionEq => (1, 2),
        Solver::Bits(w) => (1, w as int),
        Solver::Xor => (2, 1),
        Solver::Or => (2, 1),
        Solver::ShaAndXorAndXorAnd => (3, 1),
        Solver::ShaCh => (3, 1),
        Solver::Div => (2, 1),
    }
}

/// `2^i` as an element of the field.
pub open spec fn field_pow2(i: nat) -> int {
    pow(2, i) % modulus()
}

/// Greedy decomposition of `n` over the weights `2^(i-1), …, 2^0` of the
/// field, most significant first: where the weight fits, emit `1` and take it
/// off, else emit `0`. Gives the bits and what is left over.
pub open spec fn greedy_bits(n: int, i: nat) -> (Seq<int>, int)
    decreases i,
{
    if i == 0 {
        (seq![], n)
    } else {
        let t = field_pow2((i - 1) as nat);
        if t <= n {
            let rest = greedy_bits(n - t, (i - 1) as nat);
            (seq![1int] + rest.0, rest.1)
        } else {
            let rest = greedy_bits(n, (i - 1) as nat);
            (seq![0int] + rest.0, rest.1)
        }
    }
}

/// What a solver gives on inputs of the right number, or `None` where it
/// fails: a division by zero, or a value too wide for its bits.
pub open spec fn solve(s: Solver, x: Seq<int>) -> Option<Seq<int>> {
    let p = modulus();
    match s {
        Solver::ConditionEq => if x[0] == 0 {
            Some(seq![0int, 1int])
        } else {
            Some(seq![1int, field_inverse(x[0])])
        },
        Solver::Bits(w) => {
            let (b, r) = greedy_bits(x[0], w as nat);
            if r == 0 {
                Some(b)
            } else {
                None
            }
        },
        Solver::Xor => Some(seq![(x[0] + x[1] - 2 * x[0] * x[1]) % p]),
        Solver::Or => Some(seq![(x[0] + x[1] - x[0] * x[1]) % p]),
        Solver::ShaAndXorAndXorAnd => Some(
            seq![(x[1] * x[2] - (2 * x[1] * x[2] - x[1] - x[2]) * x[0]) % p],
        ),
        Solver::ShaCh => Some(seq![(x[0] * (x[1] - x[2]) + x[2]) % p]),
        Solver::Div => if x[1] == 0 {
            None
        } else {
            Some(seq![(x[0] * field_inverse(x[1])) % p])
        },
    }
}

/// The numbers of a list of elements.
pub open spec fn values(v: Seq<Bn128Field>) -> Seq<int> {
    v.map_values(|x: Bn128Field| x@)
}

impl Solver {
    /// How many values the solver takes and how many it gives.
    pub fn get_signature(&self) -> (r: (usize, usize))
        ensures
            r.0 == signature(*self).0,
            r.1 == signature(*self).1,
    {
        match self {
            Solver::ConditionEq => (1, 2),
            Solver::Bits(w) => (1, *w),
            Solver::Xor => (2, 1),
            Solver::Or => (2, 1),
            Solver::ShaAndXorAndXorAnd => (3, 1),
            Solver::ShaCh => (3, 1),
            Solver::Div => (2, 1),
        }
    }
}

/// The list `2^0, …, 2^(w-1)` of elements of the field.
fn powers_of_two(w: usize) -> (r: Vec<Bn128Field>)
    ensures
        r@.len() == w,
        forall|j: int| 0 <= j < w ==> #[trigger] r@[j]@ == field_pow2(j as nat),
{
    let mut r: Vec<Bn128Field> = Vec::new();
    if w == 0 {
        return r;
    }
    let mut cur = Bn128Field::one();
    proof {
        assert(pow(2, 0) == 1) by { reveal(pow); }
        lemma_small_mod(1, modulus() as nat);
    }
    let mut j: usize = 0;
    while j < w
        invariant
            j <= w,
            r@.len() == j,
            cur@ == field_pow2(j as nat),
            forall|k: int| 0 <= k < j ==> #[trigger] r@[k]@ == field_pow2(k as nat),
        decreases w - j,
    {
        r.push(cur);
        let next = cur.add(&cur);
        proof {
            let q = pow(2, j as nat);
            assert(pow(2, (j + 1) as nat) == 2 * q) by { reveal(pow); }
            lemma_add_mod_noop(q, q, modulus());
        }
        cur = next;
        j = j + 1;
    }
    r
}

/// The greedy decomposition of `x` over `w` bits, or `None` when something is
/// left over.
fn bits_of(x: Bn128Field, w: usize) -> (r: Option<Vec<Bn128Field>>)
    ensures
        match r {
            Some(b) => greedy_bits(x@, w as nat).1 == 0 && values(b@) == greedy_bits(x@, w as nat).0,
            None => greedy_bits(x@, w as nat).1 != 0,
        },
{
    let pows = powers_of_two(w);
    let mut res: Vec<Bn128Field> = Vec::new();
    let mut num = x;
    let mut i: usize = w;
    proof {
        assert(values(res@) + greedy_bits(num@, i as nat).0 =~= greedy_bits(x@, w as nat).0);
    }
    while i > 0
        invariant
            i <= w,
            pows@.len() == w,
            forall|j: int| 0 <= j < w ==> #[trigger] pows@[j]@ == field_pow2(j as nat),
            values(res@) + greedy_bits(num@, i as nat).0 == greedy_bits(x@, w as nat).0,
            greedy_bits(num@, i as nat).1 == greedy_bits(x@, w as nat).1,
        decreases i,
    {
        let t = pows[i - 1];
        let ghost n0 = num@;
        let ghost prev = res@;
        proof { num.lemma_bounded(); }
        if t.le(&num) {
            num = num.sub(&t);
            res.push(Bn128Field::one());
            proof {
                t.lemma_bounded();
                lemma_small_mod((n0 - t@) as nat, modulus() as nat);
            }
        } else {
            res.push(Bn128Field::zero());
        }
        proof {
            assert(values(res@) =~= values(prev) + seq![if t@ <= n0 { 1int } else { 0int }]);
            let g = greedy_bits(n0, i as nat);
            assert(values(res@) + greedy_bits(num@, (i - 1) as nat).0 =~= values(prev) + g.0);
        }
        i = i - 1;
    }
    if num.is_zero() {
        proof {
            assert(values(res@) =~= greedy_bits(x@, w as nat).0);
        }
        Some(res)
    } else {
        None
    }
}

/// Runs a solver on inputs of the right number; an error says that it failed.
pub fn run_solver(s: &Solver, inputs: &Vec<Bn128Field>) -> (r: Result<Vec<Bn128Field>, String>)
    requires
        inputs@.len() == signature(*s).0,
    ensures
        match solve(*s, values(inputs@)) {
            Some(out) => r is Ok && values(r->Ok_0@) == out,
            None => r is Err,
        },
{
    let p = Ghost(modulus());
    let ghost x = values(inputs@);
    match s {
        Solver::ConditionEq => {
            let v = inputs[0];
            match v.inverse_mul() {
                None => {
                    let r = vec![Bn128Field::zero(), Bn128Field::one()];
                    assert(values(r@) =~= seq![0int, 1int]);
                    Ok(r)
                },
                Some(inv) => {
                    let r = vec![Bn128Field::one(), inv];
                    assert(values(r@) =~= seq![1int, field_inverse(x[0])]);
                    Ok(r)
                },
            }
        },
        Solver::Bits(w) => match bits_of(inputs[0], *w) {
            Some(b) => Ok(b),
            None => Err(String::new()),
        },
        Solver::Xor => {
            let a = inputs[0];
            let b = inputs[1];
            let two = Bn128Field::from_u64(2);
            let r = a.add(&b).sub(&two.mul(&a).mul(&b));
            proof {
                a.lemma_bounded();
                b.lemma_bounded();
                lemma_small_mod(2, p@ as nat);
                lemma_mul_mod_noop_left(2 * a@, b@, p@);
                lemma_sub_mod_noop(a@ + b@, 2 * a@ * b@, p@);
            }
            let out = vec![r];
            assert(values(out@) =~= seq![(x[0] + x[1] - 2 * x[0] * x[1]) % p@]);
            Ok(out)
        },
        Solver::Or => {
            let a = inputs[0];
            let b = inputs[1];
            let r = a.add(&b).sub(&a.mul(&b));
            proof {
                lemma_sub_mod_noop(a@ + b@, a@ * b@, p@);
            }
            let out = vec![r];
            assert(values(out@) =~= seq![(x[0] + x[1] - x[0] * x[1]) % p@]);
            Ok(out)
        },
        Solver::ShaAndXorAndXorAnd => {
            let a = inputs[0];
            let b = inputs[1];
            let c = inputs[2];
            let two = Bn128Field::from_u64(2);
            let bc = b.mul(&c);
            let t = two.mul(&b).mul(&c).sub(&b).sub(&c);
            let r = bc.sub(&t.mul(&a));
            proof {
                a.lemma_bounded();
                b.lemma_bounded();
                c.lemma_bounded();
                lemma_small_mod(2, p@ as nat);
                lemma_small_mod(b@ as nat, p@ as nat);
                lemma_small_mod(c@ as nat, p@ as nat);
                lemma_small_mod(a@ as nat, p@ as nat);
                let bc2 = 2 * b@ * c@;
                lemma_mul_mod_noop_left(2 * b@, c@, p@);
                lemma_sub_mod_noop(bc2, b@, p@);
                lemma_sub_mod_noop(bc2 - b@, c@, p@);
                lemma_mul_mod_noop_left(bc2 - b@ - c@, a@, p@);
                lemma_sub_mod_noop(b@ * c@, (bc2 - b@ - c@) * a@, p@);
            }
            let out = vec![r];
            assert(values(out@) =~= seq![
                (x[1] * x[2] - (2 * x[1] * x[2] - x[1] - x[2]) * x[0]) % p@,
            ]);
            Ok(out)
        },
        Solver::ShaCh => {
            let a = inputs[0];
            let b = inputs[1];
            let c = inputs[2];
            let r = a.mul(&b.sub(&c)).add(&c);
            proof {
                c.lemma_bounded();
                lemma_small_mod(c@ as nat, p@ as nat);
                lemma_mul_mod_noop_right(a@, b@ - c@, p@);
                lemma_add_mod_noop(a@ * (b@ - c@), c@, p@);
            }
            let out = vec![r];
            assert(values(out@) =~= seq![(x[0] * (x[1] - x[2]) + x[2]) % p@]);
            Ok(out)
        },
        Solver::Div => {
            let a = inputs[0];
            let b = inputs[1];
            match b.inverse_mul() {
                None => Err(String::new()),
                Some(inv) => {
                    let out = vec![a.mul(&inv)];
                    assert(values(out@) =~= seq![(x[0] * field_inverse(x[1])) % p@]);
                    Ok(out)
                },
            }
        },
    }
}

/// The number that bits write, most significant first.
pub open spec fn bits_value(b: Seq<int>) -> int
    decreases b.len(),
{
    if b.len() == 0 {
        0
    } else {
        b[0] * pow(2, (b.len() - 1) as nat) + bits_value(b.drop_first())
    }
}

/// Every entry is `0` or `1`.
pub open spec fn is_bits(b: Seq<int>) -> bool {
    forall|i: int| 0 <= i < b.len() ==> #[trigger] b[i] == 0 || b[i] == 1
}

proof fn lemma_pow2_step(k: nat)
    ensures
        pow(2, k + 1) == 2 * pow(2, k),
        pow(2, k) > 0,
    decreases k,
{
    reveal(pow);
    if k > 0 {
        lemma_pow2_step((k - 1) as nat);
    }
}

proof fn lemma_bits_value_bounds(b: Seq<int>)
    requires
        is_bits(b),
    ensures
        0 <= bits_value(b) < pow(2, b.len()),
    decreases b.len(),
{
    if b.len() == 0 {
        reveal(pow);
    } else {
        let d = b.drop_first();
        assert(is_bits(d)) by {
            assert forall|i: int| 0 <= i < d.len() implies #[trigger] d[i] == 0 || d[i] == 1 by {
                assert(d[i] == b[i + 1]);
            }
        }
        lemma_bits_value_bounds(d);
        lemma_pow2_step(d.len());
        assert(b[0] == 0 || b[0] == 1);
    }
}

/// Below the field's width, the weights are the powers of two themselves.
proof fn lemma_field_pow2_exact(k: nat)
    requires
        k < REQUIRED_BITS,
    ensures
        field_pow2(k) == pow(2, k),
{
    lemma_top_powers();
    lemma_pow_increases(2, k, 253);
    lemma_pow2_step(k);
    lemma_small_mod(pow(2, k) as nat, modulus() as nat);
}

/// For a width up to the field's bit count, the bit solver decomposes every
/// `x < 2^w` into `w` bits, most significant first, whose weighted sum is `x`,
/// with nothing left over; and no other `w` bits have that sum.
pub proof fn lemma_bits_correct(x: int, w: nat)
    requires
        w <= REQUIRED_BITS,
        0 <= x < pow(2, w),
    ensures
        greedy_bits(x, w).1 == 0,
        greedy_bits(x, w).0.len() == w,
        is_bits(greedy_bits(x, w).0),
        bits_value(greedy_bits(x, w).0) == x,
        forall|b: Seq<int>|
            b.len() == w && is_bits(b) && #[trigger] bits_value(b) == x ==> b == greedy_bits(x, w).0,
    decreases w,
{
    if w == 0 {
        reveal(pow);
        assert forall|b: Seq<int>|
            b.len() == w && is_bits(b) && #[trigger] bits_value(b) == x implies b
            == greedy_bits(x, w).0 by {
            assert(b =~= Seq::<int>::empty());
        }
    } else {
        let k = (w - 1) as nat;
        let t = pow(2, k);
        lemma_field_pow2_exact(k);
        lemma_pow2_step(k);
        let n = if t <= x { x - t } else { x };
        lemma_bits_correct(n, k);
        let g = greedy_bits(x, w);
        let rest = greedy_bits(n, k);
        assert(g.0 == seq![if t <= x { 1int } else { 0int }] + rest.0);
        assert(g.0.drop_first() =~= rest.0);
        assert(g.0[0] == if t <= x { 1int } else { 0int });
        assert(bits_value(g.0) == g.0[0] * t + bits_value(rest.0));
        if t <= x {
            assert(g.0[0] * t == t);
        } else {
            assert(g.0[0] * t == 0);
        }
        assert(is_bits(g.0)) by {
            assert forall|i: int| 0 <= i < g.0.len() implies #[trigger] g.0[i] == 0 || g.0[i] == 1 by {
                if i > 0 {
                    assert(g.0[i] == rest.0[i - 1]);
                }
            }
        }
        assert forall|b: Seq<int>|
            b.len() == w && is_bits(b) && #[trigger] bits_value(b) == x implies b == g.0 by {
            let d = b.drop_first();
            assert(is_bits(d)) by {
                assert forall|i: int| 0 <= i < d.len() implies #[trigger] d[i] == 0 || d[i] == 1 by {
                    assert(d[i] == b[i + 1]);
                }
            }
            lemma_bits_value_bounds(d);
            assert(b[0] == 0 || b[0] == 1);
            assert(bits_value(b) == b[0] * t + bits_value(d));
            if b[0] == 1 {
                assert(b[0] * t == t);
            } else {
                assert(b[0] * t == 0);
            }
            assert(bits_value(d) == n);
            assert(d == rest.0);
            assert(b =~= seq![b[0]] + d);
            assert(b =~= g.0);
        }
    }
}

} // verus!
