//! Linear and quadratic combinations of variables over the field, with their
//! canonical forms.
use crate::decimal::{decimal, usize_to_decimal};
use crate::field::{compact_decimal, modulus, Bn128Field};
use vstd::prelude::*;
use vstd::std_specs::cmp::PartialEqSpec;

verus! {

/// A wire of the constraint system. The index `0` is the variable `ONE`,
/// which always carries the value `1`; `FlatVariable::new(n)` has index `n + 1`.
#[derive(Clone, Copy, Debug, PartialEq, Eq, Structural, Hash)]
pub struct FlatVariable {
    pub id: usize,
}

impl FlatVariable {
    /// The `n`-th ordinary variable.
    pub fn new(n: usize) -> (r: Self)
        requires
            n < usize::MAX,
        ensures
            r.id == n + 1,
    {
        FlatVariable { id: n + 1 }
    }

    /// The variable `ONE`.
    pub fn one() -> (r: Self)
        ensures
            r.id == 0,
    {
        FlatVariable { id: 0 }
    }
}

/// A term as the model sees it: the variable's index and the coefficient's number.
pub type Term = (usize, int);

/// The model of a list of stored terms.
pub open spec fn terms_view(s: Seq<(FlatVariable, Bn128Field)>) -> Seq<Term> {
    s.map_values(|t: (FlatVariable, Bn128Field)| (t.0.id, t.1@))
}

/// Every coefficient is a number of the field.
pub open spec fn valid_terms(t: Seq<Term>) -> bool {
    forall|i: int| 0 <= i < t.len() ==> 0 <= #[trigger] t[i].1 < modulus()
}

/// Strictly ascending variables and nonzero coefficients of the field.
pub open spec fn is_canonical(c: Seq<Term>) -> bool {
    &&& forall|i: int, j: int| 0 <= i < j < c.len() ==> c[i].0 < c[j].0
    &&& forall|i: int| 0 <= i < c.len() ==> 0 < #[trigger] c[i].1 < modulus()
}

/// Adds `k · v` to a canonical list, keeping it canonical: a zero `k` changes
/// nothing, and a coefficient that sums to zero drops its term.
pub open spec fn insert_term(c: Seq<Term>, v: usize, k: int) -> Seq<Term>
    decreases c.len(),
{
    if c.len() == 0 {
        if k == 0 {
            c
        } else {
            seq![(v, k)]
        }
    } else if v < c[0].0 {
        if k == 0 {
            c
        } else {
            seq![(v, k)] + c
        }
    } else if v == c[0].0 {
        let s = (c[0].1 + k) % modulus();
        if s == 0 {
            c.drop_first()
        } else {
            seq![(v, s)] + c.drop_first()
        }
    } else {
        seq![c[0]] + insert_term(c.drop_first(), v, k)
    }
}

/// The canonical form: the terms folded one by one, in order, into an
/// ascending list of nonzero coefficients.
pub open spec fn canonical(t: Seq<Term>) -> Seq<Term>
    decreases t.len(),
{
    if t.len() == 0 {
        seq![]
    } else {
        insert_term(canonical(t.drop_last()), t.last().0, t.last().1)
    }
}

/// The coefficient of `v` in a list: the sum of its coefficients there.
pub open spec fn coeff_of(t: Seq<Term>, v: usize) -> int
    decreases t.len(),
{
    if t.len() == 0 {
        0
    } else {
        (coeff_of(t.drop_last(), v) + if t.last().0 == v {
            t.last().1
        } else {
            0
        }) % modulus()
    }
}

/// The coefficient that a list with distinct variables gives `v`, or `0`.
pub open spec fn lookup(c: Seq<Term>, v: usize) -> int {
    if exists|i: int| 0 <= i < c.len() && c[i].0 == v {
        c[choose|i: int| 0 <= i < c.len() && c[i].0 == v].1
    } else {
        0
    }
}

proof fn lemma_lookup_at(c: Seq<Term>, i: int)
    requires
        is_canonical(c),
        0 <= i < c.len(),
    ensures
        lookup(c, c[i].0) == c[i].1,
{
    let j = choose|j: int| 0 <= j < c.len() && c[j].0 == c[i].0;
    assert(j == i);
}

proof fn lemma_lookup_cons(x: Term, c: Seq<Term>, w: usize)
    requires
        is_canonical(seq![x] + c),
    ensures
        lookup(seq![x] + c, w) == if x.0 == w {
            x.1
        } else {
            lookup(c, w)
        },
{
    let d = seq![x] + c;
    assert(d[0] == x);
    if x.0 == w {
        lemma_lookup_at(d, 0);
    } else if exists|i: int| 0 <= i < c.len() && c[i].0 == w {
        let i = choose|i: int| 0 <= i < c.len() && c[i].0 == w;
        assert(d[i + 1] == c[i]);
        lemma_lookup_at(d, i + 1);
        assert(is_canonical(c)) by {
            assert forall|a: int, b: int| 0 <= a < b < c.len() implies c[a].0 < c[b].0 by {
                assert(d[a + 1] == c[a] && d[b + 1] == c[b]);
            }
            assert forall|a: int| 0 <= a < c.len() implies 0 < #[trigger] c[a].1 < modulus() by {
                assert(d[a + 1] == c[a]);
            }
        }
        lemma_lookup_at(c, i);
    } else {
        assert forall|i: int| 0 <= i < d.len() implies d[i].0 != w by {
            if i > 0 {
                assert(d[i] == c[i - 1]);
            }
        }
    }
}

proof fn lemma_canonical_tail(c: Seq<Term>)
    requires
        is_canonical(c),
        c.len() > 0,
    ensures
        is_canonical(c.drop_first()),
        c =~= seq![c[0]] + c.drop_first(),
        forall|i: int| 0 <= i < c.drop_first().len() ==> c[0].0 < #[trigger] c.drop_first()[i].0,
{
    let d = c.drop_first();
    assert forall|i: int| 0 <= i < d.len() implies c[0].0 < #[trigger] d[i].0 by {
        assert(d[i] == c[i + 1]);
    }
    assert forall|a: int| 0 <= a < d.len() implies 0 < #[trigger] d[a].1 < modulus() by {
        assert(d[a] == c[a + 1]);
    }
}

proof fn lemma_lookup_absent(c: Seq<Term>, w: usize)
    requires
        is_canonical(c),
        c.len() > 0,
        w < c[0].0,
    ensures
        lookup(c, w) == 0,
{
    assert forall|i: int| 0 <= i < c.len() implies c[i].0 != w by {
        if i > 0 {
            assert(c[0].0 < c[i].0);
        }
    }
}

/// Inserting keeps a list canonical and adds `k` to the coefficient of `v`.
proof fn lemma_insert_term(c: Seq<Term>, v: usize, k: int)
    requires
        is_canonical(c),
        0 <= k < modulus(),
    ensures
        is_canonical(insert_term(c, v, k)),
        forall|w: usize| #[trigger]
            lookup(insert_term(c, v, k), w) == if w == v {
                (lookup(c, v) + k) % modulus()
            } else {
                lookup(c, w)
            },
        insert_term(c, v, k).len() > 0 ==> (insert_term(c, v, k)[0].0 == v || (c.len() > 0
            && insert_term(c, v, k)[0].0 >= c[0].0)),
    decreases c.len(),
{
    let r = insert_term(c, v, k);
    let p = modulus();
    if c.len() == 0 {
        assert forall|w: usize| #[trigger] lookup(r, w) == if w == v {
            (lookup(c, v) + k) % p
        } else {
            lookup(c, w)
        } by {
            if k != 0 {
                assert(r[0] == (v, k));
                if w == v {
                    lemma_lookup_at(r, 0);
                }
            }
            vstd::arithmetic::div_mod::lemma_small_mod(k as nat, p as nat);
        }
    } else {
        lemma_canonical_tail(c);
        let d = c.drop_first();
        if v < c[0].0 {
            if k != 0 {
                assert(is_canonical(r)) by {
                    assert forall|a: int, b: int| 0 <= a < b < r.len() implies r[a].0 < r[b].0 by {
                        if a > 0 {
                            assert(r[a] == c[a - 1] && r[b] == c[b - 1]);
                        } else {
                            assert(r[b] == c[b - 1]);
                        }
                    }
                    assert forall|a: int| 0 <= a < r.len() implies 0 < #[trigger] r[a].1 < p by {
                        if a > 0 {
                            assert(r[a] == c[a - 1]);
                        }
                    }
                }
            }
            lemma_lookup_absent(c, v);
            vstd::arithmetic::div_mod::lemma_small_mod(k as nat, p as nat);
            assert forall|w: usize| #[trigger] lookup(r, w) == if w == v {
                (lookup(c, v) + k) % p
            } else {
                lookup(c, w)
            } by {
                if k != 0 {
                    lemma_lookup_cons((v, k), c, w);
                }
            }
        } else if v == c[0].0 {
            let s = (c[0].1 + k) % p;
            lemma_lookup_at(c, 0);
            if s != 0 {
                assert(is_canonical(r)) by {
                    assert forall|a: int, b: int| 0 <= a < b < r.len() implies r[a].0 < r[b].0 by {
                        assert(r[b] == d[b - 1]);
                        if a > 0 {
                            assert(r[a] == d[a - 1]);
                        }
                    }
                    assert forall|a: int| 0 <= a < r.len() implies 0 < #[trigger] r[a].1 < p by {
                        if a > 0 {
                            assert(r[a] == d[a - 1]);
                        }
                    }
                }
            }
            assert forall|w: usize| #[trigger] lookup(r, w) == if w == v {
                (lookup(c, v) + k) % p
            } else {
                lookup(c, w)
            } by {
                lemma_lookup_cons(c[0], d, w);
                if s != 0 {
                    lemma_lookup_cons((v, s), d, w);
                } else if d.len() > 0 && w == v {
                    lemma_lookup_absent(d, w);
                }
            }
        } else {
            lemma_insert_term(d, v, k);
            let e = insert_term(d, v, k);
            assert(r == seq![c[0]] + e);
            assert(is_canonical(r)) by {
                assert forall|a: int, b: int| 0 <= a < b < r.len() implies r[a].0 < r[b].0 by {
                    assert(r[b] == e[b - 1]);
                    if a > 0 {
                        assert(r[a] == e[a - 1]);
                    } else {
                        assert(e[0].0 == v || e[0].0 >= d[0].0);
                        if b - 1 > 0 {
                            assert(e[0].0 < e[b - 1].0);
                        }
                    }
                }
                assert forall|a: int| 0 <= a < r.len() implies 0 < #[trigger] r[a].1 < p by {
                    if a > 0 {
                        assert(r[a] == e[a - 1]);
                    }
                }
            }
            assert forall|w: usize| #[trigger] lookup(r, w) == if w == v {
                (lookup(c, v) + k) % p
            } else {
                lookup(c, w)
            } by {
                lemma_lookup_cons(c[0], e, w);
                lemma_lookup_cons(c[0], d, w);
            }
        }
    }
}

proof fn lemma_lookup_snoc(c: Seq<Term>, w: usize)
    requires
        is_canonical(c),
        c.len() > 0,
    ensures
        lookup(c, w) == if c.last().0 == w {
            c.last().1
        } else {
            lookup(c.drop_last(), w)
        },
{
    let d = c.drop_last();
    let n = c.len() - 1;
    if c.last().0 == w {
        lemma_lookup_at(c, n);
    } else if exists|i: int| 0 <= i < d.len() && d[i].0 == w {
        let i = choose|i: int| 0 <= i < d.len() && d[i].0 == w;
        assert(c[i] == d[i]);
        lemma_lookup_at(c, i);
        assert(is_canonical(d)) by {
            assert forall|a: int, b: int| 0 <= a < b < d.len() implies d[a].0 < d[b].0 by {
                assert(c[a] == d[a] && c[b] == d[b]);
            }
            assert forall|a: int| 0 <= a < d.len() implies 0 < #[trigger] d[a].1 < modulus() by {
                assert(c[a] == d[a]);
            }
        }
        lemma_lookup_at(d, i);
    } else {
        assert forall|i: int| 0 <= i < c.len() implies c[i].0 != w by {
            if i < n {
                assert(c[i] == d[i]);
            }
        }
    }
}

proof fn lemma_canonical_prefix(c: Seq<Term>)
    requires
        is_canonical(c),
        c.len() > 0,
    ensures
        is_canonical(c.drop_last()),
{
    let d = c.drop_last();
    assert forall|a: int, b: int| 0 <= a < b < d.len() implies d[a].0 < d[b].0 by {
        assert(c[a] == d[a] && c[b] == d[b]);
    }
    assert forall|a: int| 0 <= a < d.len() implies 0 < #[trigger] d[a].1 < modulus() by {
        assert(c[a] == d[a]);
    }
}

/// The canonical form is canonical and gives each variable its summed coefficient.
pub proof fn lemma_canonical(t: Seq<Term>)
    requires
        valid_terms(t),
    ensures
        is_canonical(canonical(t)),
        forall|w: usize| #[trigger] lookup(canonical(t), w) == coeff_of(t, w),
    decreases t.len(),
{
    if t.len() > 0 {
        let d = t.drop_last();
        assert(valid_terms(d)) by {
            assert forall|i: int| 0 <= i < d.len() implies 0 <= #[trigger] d[i].1 < modulus() by {
                assert(d[i] == t[i]);
            }
        }
        lemma_canonical(d);
        assert(0 <= t[t.len() - 1].1 < modulus());
        lemma_insert_term(canonical(d), t.last().0, t.last().1);
        assert forall|w: usize| #[trigger] lookup(canonical(t), w) == coeff_of(t, w) by {
            lemma_coeff_range(d, w);
        }
    }
}

/// A list with distinct variables gives each variable the coefficient that it holds.
proof fn lemma_coeff_of_canonical(c: Seq<Term>, w: usize)
    requires
        is_canonical(c),
    ensures
        coeff_of(c, w) == lookup(c, w),
    decreases c.len(),
{
    if c.len() > 0 {
        let d = c.drop_last();
        lemma_canonical_prefix(c);
        lemma_coeff_of_canonical(d, w);
        lemma_lookup_snoc(c, w);
        assert(0 < c[c.len() - 1].1 < modulus());
        if c.last().0 == w {
            assert forall|i: int| 0 <= i < d.len() implies d[i].0 != w by {
                assert(d[i] == c[i]);
            }
            assert(lookup(d, w) == 0);
            assert(coeff_of(c, w) == (coeff_of(d, w) + c.last().1) % modulus());
            vstd::arithmetic::div_mod::lemma_small_mod(c.last().1 as nat, modulus() as nat);
            assert(lookup(c, w) == c.last().1);
            assert(coeff_of(c, w) == lookup(c, w));
        } else {
            assert(lookup(c, w) == lookup(d, w));
            assert(coeff_of(c, w) == (coeff_of(d, w) + 0) % modulus());
            if exists|i: int| 0 <= i < d.len() && d[i].0 == w {
                let i = choose|i: int| 0 <= i < d.len() && d[i].0 == w;
                lemma_lookup_at(d, i);
                assert(lookup(d, w) == d[i].1);
                assert(0 < d[i].1 < modulus());
                vstd::arithmetic::div_mod::lemma_small_mod(d[i].1 as nat, modulus() as nat);
                assert((lookup(d, w) + 0) % modulus() == lookup(d, w));
            } else {
                assert(lookup(d, w) == 0);
                assert((0int + 0) % modulus() == 0);
            }
            assert(coeff_of(c, w) == lookup(c, w));
        }
    } else {
        assert(coeff_of(c, w) == 0);
        assert(lookup(c, w) == 0);
    }
}

/// Two canonical lists that give every variable the same coefficient are equal.
proof fn lemma_canonical_unique(c1: Seq<Term>, c2: Seq<Term>)
    requires
        is_canonical(c1),
        is_canonical(c2),
        forall|w: usize| #[trigger] lookup(c1, w) == lookup(c2, w),
    ensures
        c1 == c2,
    decreases c1.len() + c2.len(),
{
    if c1.len() == 0 && c2.len() == 0 {
        assert(c1 =~= c2);
    } else if c1.len() == 0 {
        lemma_lookup_at(c2, 0);
        assert(lookup(c1, c2[0].0) == 0);
    } else if c2.len() == 0 {
        lemma_lookup_at(c1, 0);
        assert(lookup(c2, c1[0].0) == 0);
    } else {
        lemma_lookup_at(c1, 0);
        lemma_lookup_at(c2, 0);
        if c1[0].0 < c2[0].0 {
            lemma_lookup_absent(c2, c1[0].0);
            assert(lookup(c1, c1[0].0) == lookup(c2, c1[0].0));
        } else if c2[0].0 < c1[0].0 {
            lemma_lookup_absent(c1, c2[0].0);
            assert(lookup(c1, c2[0].0) == lookup(c2, c2[0].0));
        } else {
            lemma_canonical_tail(c1);
            lemma_canonical_tail(c2);
            let d1 = c1.drop_first();
            let d2 = c2.drop_first();
            assert forall|w: usize| #[trigger] lookup(d1, w) == lookup(d2, w) by {
                lemma_lookup_cons(c1[0], d1, w);
                lemma_lookup_cons(c2[0], d2, w);
                if w == c1[0].0 {
                    if d1.len() > 0 {
                        lemma_lookup_absent(d1, w);
                    }
                    if d2.len() > 0 {
                        lemma_lookup_absent(d2, w);
                    }
                }
            }
            lemma_canonical_unique(d1, d2);
            assert(c1[0] == c2[0]);
        }
    }
}

proof fn lemma_coeff_range(t: Seq<Term>, w: usize)
    ensures
        0 <= coeff_of(t, w) < modulus(),
        coeff_of(t, w) % modulus() == coeff_of(t, w),
{
    vstd::arithmetic::div_mod::lemma_small_mod(coeff_of(t, w) as nat, modulus() as nat);
}

/// Coefficients add up over a concatenation.
proof fn lemma_coeff_concat(a: Seq<Term>, b: Seq<Term>, w: usize)
    ensures
        coeff_of(a + b, w) == (coeff_of(a, w) + coeff_of(b, w)) % modulus(),
    decreases b.len(),
{
    let p = modulus();
    lemma_coeff_range(a, w);
    if b.len() == 0 {
        assert(a + b =~= a);
    } else {
        assert((a + b).drop_last() =~= a + b.drop_last());
        assert((a + b).last() == b.last());
        lemma_coeff_concat(a, b.drop_last(), w);
        let x = coeff_of(a, w);
        let y = coeff_of(b.drop_last(), w);
        let z = if b.last().0 == w { b.last().1 } else { 0 };
        vstd::arithmetic::div_mod::lemma_add_mod_noop_right(z, x + y, p);
        vstd::arithmetic::div_mod::lemma_add_mod_noop_right(x, y + z, p);
        assert(((x + y) % p + z) % p == (z + (x + y) % p) % p);
        assert((z + (x + y)) == x + (y + z));
    }
}

/// Each coefficient negated in the field.
pub open spec fn neg_terms(t: Seq<Term>) -> Seq<Term> {
    t.map_values(|x: Term| (x.0, (0 - x.1) % modulus()))
}

/// Each coefficient multiplied by `k` in the field.
pub open spec fn scale_terms(t: Seq<Term>, k: int) -> Seq<Term> {
    t.map_values(|x: Term| (x.0, (x.1 * k) % modulus()))
}

/// Every term is on the variable `v`.
pub open spec fn all_on(t: Seq<Term>, v: usize) -> bool {
    forall|i: int| 0 <= i < t.len() ==> #[trigger] t[i].0 == v
}

/// The stored terms always hold numbers of the field.
pub proof fn lemma_terms_valid(s: Seq<(FlatVariable, Bn128Field)>)
    ensures
        valid_terms(terms_view(s)),
{
    assert forall|i: int| 0 <= i < terms_view(s).len() implies 0 <= #[trigger] terms_view(
        s,
    )[i].1 < modulus() by {
        s[i].1.lemma_bounded();
    }
}

/// A linear combination `Σ cᵢ · vᵢ`, stored as the terms in the order in which
/// they were added; a variable may appear more than once, with any coefficient.
#[derive(Clone, Debug)]
pub struct LinComb(pub Vec<(FlatVariable, Bn128Field)>);

impl View for LinComb {
    type V = Seq<Term>;

    open spec fn view(&self) -> Seq<Term> {
        terms_view(self.0@)
    }
}

/// A linear combination in canonical form: ascending variables, each once,
/// with a nonzero coefficient.
#[derive(Clone, Debug)]
pub struct CanonicalLinComb(pub Vec<(FlatVariable, Bn128Field)>);

impl View for CanonicalLinComb {
    type V = Seq<Term>;

    open spec fn view(&self) -> Seq<Term> {
        terms_view(self.0@)
    }
}

/// Adds `k · v` to a canonical list of terms.
fn insert_sorted(res: &mut Vec<(FlatVariable, Bn128Field)>, v: FlatVariable, k: Bn128Field)
    requires
        is_canonical(terms_view(old(res)@)),
    ensures
        terms_view(final(res)@) == insert_term(terms_view(old(res)@), v.id, k@),
{
    let ghost c = terms_view(res@);
    let mut j: usize = 0;
    while j < res.len() && res[j].0.id < v.id
        invariant
            j <= res@.len(),
            c == terms_view(res@),
            forall|i: int| 0 <= i < j ==> #[trigger] c[i].0 < v.id,
        decreases res@.len() - j,
    {
        j = j + 1;
    }
    proof {
        k.lemma_bounded();
        lemma_insert_term_at(c, v.id, k@, j as int);
    }
    if j < res.len() && res[j].0.id == v.id {
        let s = res[j].1.add(&k);
        if s.is_zero() {
            res.remove(j);
            proof {
                assert(terms_view(res@) =~= c.take(j as int) + c.skip(j as int + 1));
            }
        } else {
            res.set(j, (v, s));
            proof {
                assert(terms_view(res@) =~= c.take(j as int) + seq![(v.id, s@)] + c.skip(
                    j as int + 1,
                ));
            }
        }
    } else if !k.is_zero() {
        res.insert(j, (v, k));
        proof {
            assert(terms_view(res@) =~= c.take(j as int) + seq![(v.id, k@)] + c.skip(j as int));
        }
    } else {
        proof {
            assert(c =~= c.take(j as int) + c.skip(j as int));
        }
    }
}

/// Where `j` is the first place whose variable is not below `v`, inserting
/// changes the list only there.
#[verifier::rlimit(50)]
proof fn lemma_insert_term_at(c: Seq<Term>, v: usize, k: int, j: int)
    requires
        is_canonical(c),
        0 <= k < modulus(),
        0 <= j <= c.len(),
        forall|i: int| 0 <= i < j ==> #[trigger] c[i].0 < v,
        j == c.len() || c[j].0 >= v,
    ensures
        insert_term(c, v, k) == if j < c.len() && c[j].0 == v {
            let s = (c[j].1 + k) % modulus();
            if s == 0 {
                c.take(j) + c.skip(j + 1)
            } else {
                c.take(j) + seq![(v, s)] + c.skip(j + 1)
            }
        } else if k == 0 {
            c.take(j) + c.skip(j)
        } else {
            c.take(j) + seq![(v, k)] + c.skip(j)
        },
    decreases j,
{
    if j == 0 {
        assert(c.take(0) + c.skip(0) =~= c);
        if c.len() > 0 {
            assert(c.skip(1) =~= c.drop_first());
            assert(c.take(0) + seq![(v, k)] + c.skip(0) =~= seq![(v, k)] + c);
            assert(c.take(0) + seq![(v, (c[0].1 + k) % modulus())] + c.skip(1) =~= seq![
                (v, (c[0].1 + k) % modulus()),
            ] + c.drop_first());
            assert(c.take(0) + c.skip(1) =~= c.drop_first());
        } else {
            assert(c.take(0) + seq![(v, k)] + c.skip(0) =~= seq![(v, k)]);
        }
    } else {
        lemma_canonical_tail(c);
        let d = c.drop_first();
        assert forall|i: int| 0 <= i < j - 1 implies #[trigger] d[i].0 < v by {
            assert(d[i] == c[i + 1]);
        }
        assert(j - 1 == d.len() || d[j - 1] == c[j]);
        lemma_insert_term_at(d, v, k, j - 1);
        assert(c.take(j) =~= seq![c[0]] + d.take(j - 1));
        assert(c.skip(j) =~= d.skip(j - 1));
        if j < c.len() && c[j].0 == v {
            assert(c.skip(j + 1) =~= d.skip(j));
            let s = (c[j].1 + k) % modulus();
            assert(seq![c[0]] + (d.take(j - 1) + d.skip(j)) =~= c.take(j) + c.skip(j + 1));
            assert(seq![c[0]] + (d.take(j - 1) + seq![(v, s)] + d.skip(j)) =~= c.take(j) + seq![
                (v, s),
            ] + c.skip(j + 1));
        } else {
            assert(seq![c[0]] + (d.take(j - 1) + d.skip(j - 1)) =~= c.take(j) + c.skip(j));
            assert(seq![c[0]] + (d.take(j - 1) + seq![(v, k)] + d.skip(j - 1)) =~= c.take(j)
                + seq![(v, k)] + c.skip(j));
        }
    }
}

impl LinComb {
    /// The single term `mult · var`.
    pub fn summand(mult: Bn128Field, var: FlatVariable) -> (r: LinComb)
        ensures
            r@ == seq![(var.id, mult@)],
    {
        let r = LinComb(vec![(var, mult)]);
        assert(r@ =~= seq![(var.id, mult@)]);
        r
    }

    /// The empty combination.
    pub fn zero() -> (r: LinComb)
        ensures
            r@ == Seq::<Term>::empty(),
    {
        let r = LinComb(Vec::new());
        assert(r@ =~= Seq::<Term>::empty());
        r
    }

    /// Whether the combination has no terms at all (before canonicalization).
    pub fn is_zero(&self) -> (r: bool)
        ensures
            r == (self@.len() == 0),
    {
        self.0.len() == 0
    }

    /// The combination `1 · ONE`.
    pub fn one() -> (r: LinComb)
        ensures
            r@ == seq![(0usize, 1int)],
    {
        Self::summand(Bn128Field::one(), FlatVariable::one())
    }

    /// The combination `1 · v`.
    pub fn from_variable(v: FlatVariable) -> (r: LinComb)
        ensures
            r@ == seq![(v.id, 1int)],
    {
        Self::summand(Bn128Field::one(), v)
    }

    /// The constant `k`, as `k · ONE`.
    pub fn from_field(k: Bn128Field) -> (r: LinComb)
        ensures
            r@ == seq![(0usize, k@)],
    {
        let r = Self::one().mul(&k);
        proof {
            k.lemma_bounded();
            vstd::arithmetic::div_mod::lemma_small_mod(k@ as nat, modulus() as nat);
        }
        assert(r@ =~= seq![(0usize, k@)]);
        r
    }

    /// The canonical form: duplicates summed, zero coefficients dropped,
    /// variables in ascending order.
    pub fn into_canonical(self) -> (r: CanonicalLinComb)
        ensures
            r@ == canonical(self@),
            is_canonical(r@),
    {
        self.canonicalize()
    }

    /// The canonical form of a borrowed combination.
    fn canonicalize(&self) -> (r: CanonicalLinComb)
        ensures
            r@ == canonical(self@),
            is_canonical(r@),
    {
        let mut res: Vec<(FlatVariable, Bn128Field)> = Vec::new();
        let mut i: usize = 0;
        proof {
            lemma_terms_valid(self.0@);
            assert(terms_view(res@) =~= canonical(self@.take(0)));
        }
        while i < self.0.len()
            invariant
                i <= self.0@.len(),
                terms_view(res@) == canonical(self@.take(i as int)),
                is_canonical(terms_view(res@)),
                valid_terms(self@),
            decreases self.0@.len() - i,
        {
            let (v, k) = self.0[i];
            proof {
                k.lemma_bounded();
                lemma_insert_term(terms_view(res@), v.id, k@);
                assert(self@.take(i + 1).drop_last() =~= self@.take(i as int));
            }
            insert_sorted(&mut res, v, k);
            i = i + 1;
        }
        proof {
            assert(self@.take(i as int) =~= self@);
        }
        CanonicalLinComb(res)
    }

    /// The canonical form, stored as a combination again.
    pub fn reduce(self) -> (r: LinComb)
        ensures
            r@ == canonical(self@),
    {
        LinComb::from_canonical(self.into_canonical())
    }

    /// The terms of a canonical form, in its order.
    pub fn from_canonical(c: CanonicalLinComb) -> (r: LinComb)
        ensures
            r@ == c@,
    {
        LinComb(c.0)
    }

    /// `a + b`: the terms of `b` after those of `a`.
    pub fn add(self, other: LinComb) -> (r: LinComb)
        ensures
            r@ == self@ + other@,
    {
        let mut res = self.0;
        let mut o = other.0;
        res.append(&mut o);
        let r = LinComb(res);
        assert(r@ =~= self@ + other@);
        r
    }

    /// `a - b`: the terms of `b`, negated, after those of `a`.
    pub fn sub(self, other: LinComb) -> (r: LinComb)
        ensures
            r@ == self@ + neg_terms(other@),
    {
        let mut res = self.0;
        let ghost n = res@.len();
        let mut i: usize = 0;
        while i < other.0.len()
            invariant
                i <= other.0@.len(),
                res@.len() == n + i,
                terms_view(res@) =~= self@ + neg_terms(other@).take(i as int),
            decreases other.0@.len() - i,
        {
            let (v, c) = other.0[i];
            let ghost prev = res@;
            let n = c.neg();
            res.push((v, n));
            proof {
                assert(terms_view(res@) =~= terms_view(prev).push((v.id, n@)));
                assert(neg_terms(other@).take(i + 1) =~= neg_terms(other@).take(i as int).push(
                    neg_terms(other@)[i as int],
                ));
            }
            i = i + 1;
        }
        proof {
            assert(neg_terms(other@).take(i as int) =~= neg_terms(other@));
        }
        LinComb(res)
    }

    /// `a · k`: each coefficient times `k`; for `k = 1` the combination itself.
    pub fn mul(self, scalar: &Bn128Field) -> (r: LinComb)
        ensures
            r@ == scale_terms(self@, scalar@),
            scalar@ == 1 ==> r == self,
    {
        if scalar.is_one() {
            proof {
                lemma_terms_valid(self.0@);
                lemma_scale_one(self@);
            }
            return self;
        }
        let mut res: Vec<(FlatVariable, Bn128Field)> = Vec::new();
        let mut i: usize = 0;
        while i < self.0.len()
            invariant
                i <= self.0@.len(),
                terms_view(res@) =~= scale_terms(self@, scalar@).take(i as int),
            decreases self.0@.len() - i,
        {
            let (v, c) = self.0[i];
            let ghost prev = res@;
            let m = c.mul(scalar);
            res.push((v, m));
            proof {
                assert(terms_view(res@) =~= terms_view(prev).push((v.id, m@)));
                assert(scale_terms(self@, scalar@).take(i + 1) =~= scale_terms(self@, scalar@).take(
                    i as int,
                ).push(scale_terms(self@, scalar@)[i as int]));
            }
            i = i + 1;
        }
        proof {
            assert(scale_terms(self@, scalar@).take(i as int) =~= scale_terms(self@, scalar@));
        }
        LinComb(res)
    }

    /// `a ÷ k` for a nonzero `k`: `a · k⁻¹`.
    pub fn div(self, scalar: &Bn128Field) -> (r: LinComb)
        requires
            scalar@ != 0,
        ensures
            r@ == scale_terms(self@, crate::field::field_inverse(scalar@)),
    {
        match scalar.inverse_mul() {
            Some(inv) => self.mul(&inv),
            None => self,
        }
    }

    /// The constant that the combination stands for, when every term is on
    /// `ONE` (`0` when empty); otherwise the combination itself.
    pub fn try_constant(self) -> (r: Result<Bn128Field, LinComb>)
        ensures
            all_on(self@, 0) ==> r is Ok && r->Ok_0@ == coeff_of(self@, 0),
            !all_on(self@, 0) ==> r == Err::<Bn128Field, LinComb>(self),
    {
        if self.0.len() == 0 {
            return Ok(Bn128Field::zero());
        }
        let first = self.0[0].0;
        if first.id != 0 {
            assert(!all_on(self@, 0)) by {
                assert(self@[0].0 != 0);
            }
            return Err(self);
        }
        match self.sum_if_on(first) {
            Some(k) => Ok(k),
            None => Err(self),
        }
    }

    /// The sum of the coefficients, when every term is on `v`.
    fn sum_if_on(&self, v: FlatVariable) -> (r: Option<Bn128Field>)
        ensures
            all_on(self@, v.id) ==> r is Some && r->0@ == coeff_of(self@, v.id),
            !all_on(self@, v.id) ==> r is None,
    {
        let mut acc = Bn128Field::zero();
        let mut i: usize = 0;
        while i < self.0.len()
            invariant
                i <= self.0@.len(),
                all_on(self@.take(i as int), v.id),
                acc@ == coeff_of(self@.take(i as int), v.id),
            decreases self.0@.len() - i,
        {
            if self.0[i].0.id != v.id {
                assert(!all_on(self@, v.id)) by {
                    assert(self@[i as int].0 != v.id);
                }
                return None;
            }
            let c = self.0[i].1;
            acc = acc.add(&c);
            proof {
                assert(self@.take(i + 1).drop_last() =~= self@.take(i as int));
                assert(self@.take(i + 1).last() == self@[i as int]);
                assert forall|j: int| 0 <= j < i + 1 implies #[trigger] self@.take(i + 1)[j].0
                    == v.id by {
                    if j < i {
                        assert(self@.take(i + 1)[j] == self@.take(i as int)[j]);
                    }
                }
            }
            i = i + 1;
        }
        proof {
            assert(self@.take(i as int) =~= self@);
        }
        Some(acc)
    }

    /// The single variable and its summed coefficient, when every term is on
    /// one variable; otherwise (also when empty) the combination itself.
    pub fn try_summand(self) -> (r: Result<(FlatVariable, Bn128Field), LinComb>)
        ensures
            self@.len() > 0 && all_on(self@, self@[0].0) ==> r is Ok && r->Ok_0.0.id == self@[0].0
                && r->Ok_0.1@ == coeff_of(self@, self@[0].0),
            !(self@.len() > 0 && all_on(self@, self@[0].0)) ==> r == Err::<
                (FlatVariable, Bn128Field),
                LinComb,
            >(self),
    {
        if self.0.len() == 0 {
            return Err(self);
        }
        let first = self.0[0].0;
        match self.sum_if_on(first) {
            Some(k) => Ok((first, k)),
            None => Err(self),
        }
    }
}

proof fn lemma_scale_one(t: Seq<Term>)
    requires
        valid_terms(t),
    ensures
        scale_terms(t, 1) == t,
{
    assert forall|i: int| 0 <= i < t.len() implies #[trigger] scale_terms(t, 1)[i] == t[i] by {
        vstd::arithmetic::div_mod::lemma_small_mod(t[i].1 as nat, modulus() as nat);
    }
    assert(scale_terms(t, 1) =~= t);
}

/// How a variable is written: `~one` for `ONE`, `_n` for the `n`-th variable.
pub open spec fn variable_text(id: usize) -> Seq<char> {
    if id == 0 {
        seq!['~', 'o', 'n', 'e']
    } else {
        seq!['_'] + decimal((id - 1) as nat)
    }
}

/// How a term is written: `c * v`, with the compact writing of `c`.
pub open spec fn term_text(t: Term) -> Seq<char> {
    compact_decimal(t.1) + seq![' ', '*', ' '] + variable_text(t.0)
}

/// The terms written one after the other, separated by ` + `.
pub open spec fn join_terms(c: Seq<Term>) -> Seq<char>
    decreases c.len(),
{
    if c.len() == 0 {
        seq![]
    } else if c.len() == 1 {
        term_text(c[0])
    } else {
        join_terms(c.drop_last()) + seq![' ', '+', ' '] + term_text(c.last())
    }
}

/// How a combination is written: `0` when it has no terms, else its
/// canonical terms joined.
pub open spec fn lin_comb_text(t: Seq<Term>) -> Seq<char> {
    if t.len() == 0 {
        seq!['0']
    } else {
        join_terms(canonical(t))
    }
}

impl FlatVariable {
    /// The variable's name.
    pub fn to_string(&self) -> (r: String)
        ensures
            r@ == variable_text(self.id),
    {
        if self.id == 0 {
            proof { reveal_strlit("~one"); }
            String::from_str("~one")
        } else {
            let mut s = String::from_str("_");
            s.append(usize_to_decimal(self.id - 1).as_str());
            proof {
                reveal_strlit("_");
                assert(s@ =~= variable_text(self.id));
            }
            s
        }
    }
}

/// Writes one term.
fn term_to_string(v: &FlatVariable, c: &Bn128Field) -> (r: String)
    ensures
        r@ == term_text((v.id, c@)),
{
    let mut s = c.to_compact_dec_string();
    s.append(" * ");
    s.append(v.to_string().as_str());
    proof {
        reveal_strlit(" * ");
        assert(s@ =~= term_text((v.id, c@)));
    }
    s
}

impl CanonicalLinComb {
    /// Whether two canonical forms hold the same terms.
    pub fn same_terms(&self, other: &CanonicalLinComb) -> (r: bool)
        ensures
            r == (self@ == other@),
    {
        if self.0.len() != other.0.len() {
            assert(self@.len() != other@.len());
            return false;
        }
        let mut i: usize = 0;
        while i < self.0.len()
            invariant
                i <= self.0@.len(),
                self.0@.len() == other.0@.len(),
                forall|j: int| 0 <= j < i ==> #[trigger] self@[j] == other@[j],
            decreases self.0@.len() - i,
        {
            if self.0[i].0.id != other.0[i].0.id || !self.0[i].1.equals(&other.0[i].1) {
                assert(self@[i as int] != other@[i as int]);
                return false;
            }
            i = i + 1;
        }
        assert(self@ =~= other@);
        true
    }

    /// Writes the terms joined by ` + `.
    pub fn join(&self) -> (r: String)
        ensures
            r@ == join_terms(self@),
    {
        let mut s = String::new();
        let mut i: usize = 0;
        while i < self.0.len()
            invariant
                i <= self.0@.len(),
                s@ == join_terms(self@.take(i as int)),
            decreases self.0@.len() - i,
        {
            if i > 0 {
                s.append(" + ");
            }
            let t = term_to_string(&self.0[i].0, &self.0[i].1);
            s.append(t.as_str());
            proof {
                reveal_strlit(" + ");
                let q = self@.take(i + 1);
                assert(q.drop_last() =~= self@.take(i as int));
                assert(q.last() == self@[i as int]);
                assert(s@ =~= join_terms(q));
            }
            i = i + 1;
        }
        proof {
            assert(self@.take(i as int) =~= self@);
        }
        s
    }
}

impl PartialEq for CanonicalLinComb {
    fn eq(&self, other: &CanonicalLinComb) -> (r: bool) {
        self.same_terms(other)
    }
}

impl vstd::std_specs::cmp::PartialEqSpecImpl for CanonicalLinComb {
    open spec fn obeys_eq_spec() -> bool {
        true
    }

    open spec fn eq_spec(&self, other: &CanonicalLinComb) -> bool {
        self@ == other@
    }
}

impl Eq for CanonicalLinComb {

}

impl PartialEq for LinComb {
    fn eq(&self, other: &LinComb) -> (r: bool) {
        self.canonicalize().same_terms(&other.canonicalize())
    }
}

impl vstd::std_specs::cmp::PartialEqSpecImpl for LinComb {
    open spec fn obeys_eq_spec() -> bool {
        true
    }

    open spec fn eq_spec(&self, other: &LinComb) -> bool {
        canonical(self@) == canonical(other@)
    }
}

impl Eq for LinComb {

}

impl LinComb {
    /// Writes the combination: `0` when it has no terms, else its canonical
    /// terms as `c * v` joined by ` + `.
    pub fn to_string(&self) -> (r: String)
        ensures
            r@ == lin_comb_text(self@),
    {
        if self.is_zero() {
            proof { reveal_strlit("0"); }
            String::from_str("0")
        } else {
            self.canonicalize().join()
        }
    }

    /// Whether `self` is `1 · v` for a variable `v` that `bound` does not hold.
    pub fn is_assignee(&self, bound: &std::collections::BTreeMap<usize, Bn128Field>) -> (r: bool)
        ensures
            r == (self@.len() == 1 && self@[0].1 == 1 && !bound@.contains_key(self@[0].0)),
    {
        self.0.len() == 1 && self.0[0].1.is_one() && !bound.contains_key(&self.0[0].0.id)
    }
}

/// The product `L · R` of two linear combinations.
#[derive(Clone, Debug)]
pub struct QuadComb {
    pub left: LinComb,
    pub right: LinComb,
}

/// A quadratic combination with both factors in canonical form.
#[derive(Clone, Debug)]
pub struct CanonicalQuadComb {
    pub left: CanonicalLinComb,
    pub right: CanonicalLinComb,
}

/// What `try_linear` makes of `L · R`: zero when a factor is empty, the other
/// factor scaled when one is a constant, nothing otherwise.
pub open spec fn linear_of(l: Seq<Term>, r: Seq<Term>) -> Option<Seq<Term>> {
    if l.len() == 0 || r.len() == 0 {
        Some(seq![])
    } else if all_on(l, 0) {
        Some(scale_terms(r, coeff_of(l, 0)))
    } else if all_on(r, 0) {
        Some(scale_terms(l, coeff_of(r, 0)))
    } else {
        None
    }
}

impl QuadComb {
    /// The product `left · right`.
    pub fn from_linear_combinations(left: LinComb, right: LinComb) -> (r: QuadComb)
        ensures
            r.left == left,
            r.right == right,
    {
        QuadComb { left, right }
    }

    /// A linear combination `L` as `(1 · ONE) · L`.
    pub fn from_lin_comb(l: LinComb) -> (r: QuadComb)
        ensures
            r.left@ == seq![(0usize, 1int)],
            r.right == l,
    {
        QuadComb { left: LinComb::one(), right: l }
    }

    /// A constant `k` as `(1 · ONE) · (k · ONE)`.
    pub fn from_field(k: Bn128Field) -> (r: QuadComb)
        ensures
            r.left@ == seq![(0usize, 1int)],
            r.right@ == seq![(0usize, k@)],
    {
        Self::from_lin_comb(LinComb::from_field(k))
    }

    /// A variable `v` as `(1 · ONE) · (1 · v)`.
    pub fn from_variable(v: FlatVariable) -> (r: QuadComb)
        ensures
            r.left@ == seq![(0usize, 1int)],
            r.right@ == seq![(v.id, 1int)],
    {
        Self::from_lin_comb(LinComb::from_variable(v))
    }

    /// Collapses `L · R` to one linear combination when a factor is empty or a
    /// constant; otherwise hands back the product unchanged.
    pub fn try_linear(self) -> (r: Result<LinComb, QuadComb>)
        ensures
            match linear_of(self.left@, self.right@) {
                Some(m) => r is Ok && r->Ok_0@ == m,
                None => r == Err::<LinComb, QuadComb>(self),
            },
    {
        if self.left.is_zero() || self.right.is_zero() {
            return Ok(LinComb::zero());
        }
        let QuadComb { left, right } = self;
        match left.try_constant() {
            Ok(coefficient) => Ok(right.mul(&coefficient)),
            Err(left) => match right.try_constant() {
                Ok(coefficient) => Ok(left.mul(&coefficient)),
                Err(right) => Err(QuadComb::from_linear_combinations(left, right)),
            },
        }
    }

    /// Both factors in canonical form.
    pub fn into_canonical(self) -> (r: CanonicalQuadComb)
        ensures
            r.left@ == canonical(self.left@),
            r.right@ == canonical(self.right@),
    {
        CanonicalQuadComb { left: self.left.into_canonical(), right: self.right.into_canonical() }
    }

    /// Both factors in canonical form, stored as a product again.
    pub fn reduce(self) -> (r: QuadComb)
        ensures
            r.left@ == canonical(self.left@),
            r.right@ == canonical(self.right@),
    {
        QuadComb::from_canonical(self.into_canonical())
    }

    /// The product of two canonical factors.
    pub fn from_canonical(q: CanonicalQuadComb) -> (r: QuadComb)
        ensures
            r.left@ == q.left@,
            r.right@ == q.right@,
    {
        QuadComb { left: LinComb::from_canonical(q.left), right: LinComb::from_canonical(q.right) }
    }

    /// Writes the product as `(L) * (R)`.
    pub fn to_string(&self) -> (r: String)
        ensures
            r@ == seq!['('] + lin_comb_text(self.left@) + seq![')', ' ', '*', ' ', '('] + lin_comb_text(
                self.right@,
            ) + seq![')'],
    {
        let mut s = String::from_str("(");
        s.append(self.left.to_string().as_str());
        s.append(") * (");
        s.append(self.right.to_string().as_str());
        s.append(")");
        proof {
            reveal_strlit("(");
            reveal_strlit(") * (");
            reveal_strlit(")");
        }
        assert(s@ =~= seq!['('] + lin_comb_text(self.left@) + seq![')', ' ', '*', ' ', '(']
            + lin_comb_text(self.right@) + seq![')']);
        s
    }
}

impl PartialEq for QuadComb {
    fn eq(&self, other: &QuadComb) -> (r: bool) {
        self.left.eq(&other.left) && self.right.eq(&other.right)
    }
}

impl vstd::std_specs::cmp::PartialEqSpecImpl for QuadComb {
    open spec fn obeys_eq_spec() -> bool {
        true
    }

    open spec fn eq_spec(&self, other: &QuadComb) -> bool {
        canonical(self.left@) == canonical(other.left@) && canonical(self.right@) == canonical(
            other.right@,
        )
    }
}

impl Eq for QuadComb {

}

/// The value of a list of terms under an assignment of the variables:
/// `Σ cᵢ · w(vᵢ)` in the field, summed from the first term on.
pub open spec fn eval_terms(t: Seq<Term>, w: Map<usize, int>) -> int
    decreases t.len(),
{
    if t.len() == 0 {
        0
    } else {
        (eval_terms(t.drop_last(), w) + t.last().1 * w[t.last().0]) % modulus()
    }
}

/// The assignment holds every variable of the list.
pub open spec fn binds_all(t: Seq<Term>, w: Map<usize, int>) -> bool {
    forall|i: int| 0 <= i < t.len() ==> w.contains_key(#[trigger] t[i].0)
}

proof fn lemma_canonical_is_valid(c: Seq<Term>)
    requires
        is_canonical(c),
    ensures
        valid_terms(c),
{
    assert forall|i: int| 0 <= i < c.len() implies 0 <= #[trigger] c[i].1 < modulus() by {}
}

/// Two lists that give every variable the same coefficient have one canonical form.
proof fn lemma_same_coefficients(t1: Seq<Term>, t2: Seq<Term>)
    requires
        valid_terms(t1),
        valid_terms(t2),
        forall|w: usize| #[trigger] coeff_of(t1, w) == coeff_of(t2, w),
    ensures
        canonical(t1) == canonical(t2),
{
    lemma_canonical(t1);
    lemma_canonical(t2);
    assert forall|w: usize| #[trigger] lookup(canonical(t1), w) == lookup(canonical(t2), w) by {
        assert(coeff_of(t1, w) == coeff_of(t2, w));
    }
    lemma_canonical_unique(canonical(t1), canonical(t2));
}

proof fn lemma_concat_valid(a: Seq<Term>, b: Seq<Term>)
    requires
        valid_terms(a),
        valid_terms(b),
    ensures
        valid_terms(a + b),
{
    assert forall|i: int| 0 <= i < (a + b).len() implies 0 <= #[trigger] (a + b)[i].1 < modulus() by {
        if i >= a.len() {
            assert((a + b)[i] == b[i - a.len()]);
        }
    }
}

proof fn lemma_coeff_neg(t: Seq<Term>, w: usize)
    ensures
        coeff_of(neg_terms(t), w) == (0 - coeff_of(t, w)) % modulus(),
        valid_terms(neg_terms(t)),
    decreases t.len(),
{
    let p = modulus();
    if t.len() > 0 {
        assert(neg_terms(t).drop_last() =~= neg_terms(t.drop_last()));
        lemma_coeff_neg(t.drop_last(), w);
        let x = coeff_of(t.drop_last(), w);
        let z = if t.last().0 == w { t.last().1 } else { 0 };
        let nz = if t.last().0 == w { (0 - t.last().1) % p } else { 0 };
        // ((0 - x) % p + nz) % p == (0 - (x + z) % p) % p
        vstd::arithmetic::div_mod::lemma_add_mod_noop(0 - x, 0 - z, p);
        vstd::arithmetic::div_mod::lemma_sub_mod_noop(0, x + z, p);
        vstd::arithmetic::div_mod::lemma_mod_twice(0 - z, p);
        assert(nz % p == (0 - z) % p);
        assert(0 - x + (0 - z) == 0 - (x + z));
        assert((0int % p) == 0);
        vstd::arithmetic::div_mod::lemma_mod_twice(0 - x, p);
    }
    assert forall|i: int| 0 <= i < neg_terms(t).len() implies 0 <= #[trigger] neg_terms(t)[i].1 < p by {}
}

proof fn lemma_coeff_scale(t: Seq<Term>, k: int, w: usize)
    ensures
        coeff_of(scale_terms(t, k), w) == (coeff_of(t, w) * k) % modulus(),
        valid_terms(scale_terms(t, k)),
    decreases t.len(),
{
    let p = modulus();
    if t.len() > 0 {
        let st = scale_terms(t, k);
        assert(st.drop_last() =~= scale_terms(t.drop_last(), k));
        assert(st.last() == (t.last().0, (t.last().1 * k) % p));
        lemma_coeff_scale(t.drop_last(), k, w);
        let x = coeff_of(t.drop_last(), w);
        let c = t.last().1;
        let z = if t.last().0 == w { c } else { 0 };
        let zs = if t.last().0 == w { (c * k) % p } else { 0 };
        assert(coeff_of(t, w) == (x + z) % p);
        assert(coeff_of(st, w) == ((x * k) % p + zs) % p);
        vstd::arithmetic::div_mod::lemma_mul_mod_noop_left(x + z, k, p);
        assert(((x + z) % p * k) % p == ((x + z) * k) % p);
        if t.last().0 == w {
            vstd::arithmetic::div_mod::lemma_add_mod_noop(x * k, c * k, p);
            assert((x + c) * k == x * k + c * k) by (nonlinear_arith);
        } else {
            vstd::arithmetic::div_mod::lemma_mod_twice(x * k, p);
            assert((x + 0) * k == x * k);
        }
    } else {
        assert(scale_terms(t, k).len() == 0);
        assert(0 * k == 0);
        assert(0int % p == 0);
    }
    assert forall|i: int| 0 <= i < scale_terms(t, k).len() implies 0 <= #[trigger] scale_terms(
        t,
        k,
    )[i].1 < p by {}
}

/// Canonicalizing twice gives what canonicalizing once gives.
pub proof fn lemma_canonical_idempotent(l: LinComb)
    ensures
        canonical(canonical(l@)) == canonical(l@),
{
    lemma_terms_valid(l.0@);
    lemma_canonical(l@);
    let c = canonical(l@);
    lemma_canonical_is_valid(c);
    assert forall|w: usize| #[trigger] coeff_of(c, w) == coeff_of(l@, w) by {
        lemma_coeff_of_canonical(c, w);
    }
    lemma_same_coefficients(c, l@);
}

/// Two combinations are equal exactly when their canonical forms hold the
/// same terms, which is when they give every variable the same coefficient.
pub proof fn lemma_eq_is_canonical_eq(a: LinComb, b: LinComb)
    ensures
        a.eq_spec(&b) <==> canonical(a@) == canonical(b@),
        a.eq_spec(&b) <==> forall|w: usize| coeff_of(a@, w) == coeff_of(b@, w),
{
    lemma_terms_valid(a.0@);
    lemma_terms_valid(b.0@);
    if forall|w: usize| coeff_of(a@, w) == coeff_of(b@, w) {
        assert forall|w: usize| #[trigger] coeff_of(a@, w) == coeff_of(b@, w) by {}
        lemma_same_coefficients(a@, b@);
    }
    if canonical(a@) == canonical(b@) {
        lemma_canonical(a@);
        lemma_canonical(b@);
        assert forall|w: usize| coeff_of(a@, w) == coeff_of(b@, w) by {
            assert(lookup(canonical(a@), w) == lookup(canonical(b@), w));
        }
    }
}

/// Adding and then canonicalizing gives what adding the canonical forms gives.
pub proof fn lemma_add_normalizes(a: LinComb, b: LinComb)
    ensures
        canonical(a@ + b@) == canonical(canonical(a@) + canonical(b@)),
{
    lemma_terms_valid(a.0@);
    lemma_terms_valid(b.0@);
    lemma_canonical(a@);
    lemma_canonical(b@);
    let ca = canonical(a@);
    let cb = canonical(b@);
    lemma_canonical_is_valid(ca);
    lemma_canonical_is_valid(cb);
    lemma_concat_valid(a@, b@);
    lemma_concat_valid(ca, cb);
    assert forall|w: usize| #[trigger] coeff_of(a@ + b@, w) == coeff_of(ca + cb, w) by {
        lemma_coeff_concat(a@, b@, w);
        lemma_coeff_concat(ca, cb, w);
        lemma_coeff_of_canonical(ca, w);
        lemma_coeff_of_canonical(cb, w);
    }
    lemma_same_coefficients(a@ + b@, ca + cb);
}

/// Subtracting and then canonicalizing gives what subtracting the canonical
/// forms gives.
pub proof fn lemma_sub_normalizes(a: LinComb, b: LinComb)
    ensures
        canonical(a@ + neg_terms(b@)) == canonical(canonical(a@) + neg_terms(canonical(b@))),
{
    lemma_terms_valid(a.0@);
    lemma_terms_valid(b.0@);
    lemma_canonical(a@);
    lemma_canonical(b@);
    let ca = canonical(a@);
    let cb = canonical(b@);
    lemma_canonical_is_valid(ca);
    assert forall|w: usize| #[trigger] coeff_of(a@ + neg_terms(b@), w) == coeff_of(
        ca + neg_terms(cb),
        w,
    ) by {
        lemma_coeff_neg(b@, w);
        lemma_coeff_neg(cb, w);
        lemma_coeff_concat(a@, neg_terms(b@), w);
        lemma_coeff_concat(ca, neg_terms(cb), w);
        lemma_coeff_of_canonical(ca, w);
        lemma_coeff_of_canonical(cb, w);
    }
    lemma_coeff_neg(b@, 0);
    lemma_coeff_neg(cb, 0);
    lemma_concat_valid(a@, neg_terms(b@));
    lemma_concat_valid(ca, neg_terms(cb));
    lemma_same_coefficients(a@ + neg_terms(b@), ca + neg_terms(cb));
}

/// Scaling and then canonicalizing gives what scaling the canonical form gives.
pub proof fn lemma_scale_normalizes(a: LinComb, k: Bn128Field)
    ensures
        canonical(scale_terms(a@, k@)) == canonical(scale_terms(canonical(a@), k@)),
{
    lemma_terms_valid(a.0@);
    lemma_canonical(a@);
    let ca = canonical(a@);
    assert forall|w: usize| #[trigger] coeff_of(scale_terms(a@, k@), w) == coeff_of(
        scale_terms(ca, k@),
        w,
    ) by {
        lemma_coeff_scale(a@, k@, w);
        lemma_coeff_scale(ca, k@, w);
        lemma_coeff_of_canonical(ca, w);
    }
    lemma_coeff_scale(a@, k@, 0);
    lemma_coeff_scale(ca, k@, 0);
    lemma_same_coefficients(scale_terms(a@, k@), scale_terms(ca, k@));
}

/// Addition commutes once canonicalized.
pub proof fn lemma_add_commutes(a: LinComb, b: LinComb)
    ensures
        canonical(a@ + b@) == canonical(b@ + a@),
{
    lemma_terms_valid(a.0@);
    lemma_terms_valid(b.0@);
    lemma_concat_valid(a@, b@);
    lemma_concat_valid(b@, a@);
    assert forall|w: usize| #[trigger] coeff_of(a@ + b@, w) == coeff_of(b@ + a@, w) by {
        lemma_coeff_concat(a@, b@, w);
        lemma_coeff_concat(b@, a@, w);
    }
    lemma_same_coefficients(a@ + b@, b@ + a@);
}

/// `L − L` canonicalizes to the empty combination.
pub proof fn lemma_sub_self_is_zero(l: LinComb)
    ensures
        canonical(l@ + neg_terms(l@)) == Seq::<Term>::empty(),
{
    let p = modulus();
    let t = l@ + neg_terms(l@);
    lemma_terms_valid(l.0@);
    lemma_coeff_neg(l@, 0);
    lemma_concat_valid(l@, neg_terms(l@));
    lemma_canonical(t);
    assert forall|w: usize| #[trigger] lookup(canonical(t), w) == lookup(Seq::<Term>::empty(), w) by {
        lemma_coeff_concat(l@, neg_terms(l@), w);
        lemma_coeff_neg(l@, w);
        let x = coeff_of(l@, w);
        lemma_coeff_range(l@, w);
        vstd::arithmetic::div_mod::lemma_add_mod_noop_right(x, 0 - x, p);
        assert(x + (0 - x) == 0);
        assert(0int % p == 0);
        assert(coeff_of(t, w) == 0);
        assert(!(exists|i: int| 0 <= i < Seq::<Term>::empty().len() && Seq::<Term>::empty()[i].0 == w));
    }
    lemma_canonical_unique(canonical(t), Seq::<Term>::empty());
}

proof fn lemma_eval_constant(t: Seq<Term>, w: Map<usize, int>)
    requires
        all_on(t, 0),
        w.contains_key(0),
        w[0] == 1,
    ensures
        eval_terms(t, w) == coeff_of(t, 0),
    decreases t.len(),
{
    if t.len() > 0 {
        assert(all_on(t.drop_last(), 0)) by {
            assert forall|i: int| 0 <= i < t.drop_last().len() implies #[trigger] t.drop_last()[i].0
                == 0 by {
                assert(t.drop_last()[i] == t[i]);
            }
        }
        lemma_eval_constant(t.drop_last(), w);
        assert(t[t.len() - 1].0 == 0);
    }
}

proof fn lemma_eval_scale(t: Seq<Term>, k: int, w: Map<usize, int>)
    ensures
        eval_terms(scale_terms(t, k), w) == (eval_terms(t, w) * k) % modulus(),
    decreases t.len(),
{
    let p = modulus();
    if t.len() > 0 {
        let st = scale_terms(t, k);
        assert(st.drop_last() =~= scale_terms(t.drop_last(), k));
        assert(st.last() == (t.last().0, (t.last().1 * k) % p));
        lemma_eval_scale(t.drop_last(), k, w);
        let e = eval_terms(t.drop_last(), w);
        let c = t.last().1;
        let x = w[t.last().0];
        let b = ((c * k) % p) * x;
        assert(eval_terms(st, w) == ((e * k) % p + b) % p);
        vstd::arithmetic::div_mod::lemma_add_mod_noop_right(b, e * k, p);
        assert((e * k) % p + b == b + (e * k) % p);
        vstd::arithmetic::div_mod::lemma_mul_mod_noop_left(c * k, x, p);
        vstd::arithmetic::div_mod::lemma_add_mod_noop_right(e * k, b, p);
        vstd::arithmetic::div_mod::lemma_add_mod_noop_right(e * k, (c * k) * x, p);
        assert(b + e * k == e * k + b);
        vstd::arithmetic::div_mod::lemma_mul_mod_noop_left(e + c * x, k, p);
        assert((e + c * x) * k == e * k + (c * k) * x) by (nonlinear_arith);
    } else {
        assert(scale_terms(t, k).len() == 0);
        assert(0 * k == 0);
        assert(0int % p == 0);
    }
}

/// When `try_constant` finds a constant, every assignment that binds `ONE`
/// to `1` gives the combination that value.
pub proof fn lemma_try_constant_sound(l: LinComb, w: Map<usize, int>)
    requires
        all_on(l@, 0),
        w.contains_key(0),
        w[0] == 1,
    ensures
        eval_terms(l@, w) == coeff_of(l@, 0),
{
    lemma_eval_constant(l@, w);
}

/// When `try_linear` collapses `L · R` to `M`, every assignment that binds `ONE`
/// to `1` gives `M` the value of `L` times the value of `R`.
pub proof fn lemma_try_linear_sound(q: QuadComb, w: Map<usize, int>)
    requires
        linear_of(q.left@, q.right@) is Some,
        w.contains_key(0),
        w[0] == 1,
    ensures
        eval_terms(linear_of(q.left@, q.right@)->0, w) == (eval_terms(q.left@, w) * eval_terms(
            q.right@,
            w,
        )) % modulus(),
{
    let l = q.left@;
    let r = q.right@;
    let p = modulus();
    if l.len() == 0 {
        assert(0 * eval_terms(r, w) == 0);
        assert(eval_terms(Seq::<Term>::empty(), w) == 0);
        assert(0int % p == 0);
    } else if r.len() == 0 {
        assert(eval_terms(l, w) * 0 == 0);
        assert(eval_terms(Seq::<Term>::empty(), w) == 0);
        assert(0int % p == 0);
    } else if all_on(l, 0) {
        lemma_eval_constant(l, w);
        lemma_eval_scale(r, coeff_of(l, 0), w);
        assert(eval_terms(r, w) * coeff_of(l, 0) == coeff_of(l, 0) * eval_terms(r, w)) by (
        nonlinear_arith);
    } else {
        assert(all_on(r, 0));
        assert(linear_of(l, r) == Some(scale_terms(l, coeff_of(r, 0))));
        lemma_eval_constant(r, w);
        lemma_eval_scale(l, coeff_of(r, 0), w);
    }
}

} // verus!
