//! Types of the source language as function signatures carry them, with
//! their textual forms and the slugs that name specialized functions.
use crate::decimal::{decimal, usize_to_decimal};
use vstd::prelude::*;

verus! {

/// A size in a declared type: a generic name, or a value.
#[derive(Clone, Debug)]
pub enum Constant {
    Generic(String),
    Concrete(u32),
}

/// The bit width of an unsigned integer type.
#[derive(Clone, Copy, Debug, PartialEq, Eq, Structural, Hash)]
pub enum UBitwidth {
    B8,
    B16,
    B32,
}

/// A member of a struct type: its name and type.
#[derive(Debug)]
pub struct GStructMember<S> {
    pub id: String,
    pub ty: Box<GType<S>>,
}

/// An array type: its size and the type of its elements.
#[derive(Debug)]
pub struct GArrayType<S> {
    pub size: S,
    pub ty: Box<GType<S>>,
}

/// A struct type: the module that declares it, its name, and its members in order.
#[derive(Debug)]
pub struct GStructType<S> {
    pub module: String,
    pub name: String,
    pub members: Vec<GStructMember<S>>,
}

/// A type, with sizes of kind `S`.
#[derive(Debug)]
pub enum GType<S> {
    FieldElement,
    Boolean,
    Array(GArrayType<S>),
    Struct(GStructType<S>),
    Uint(UBitwidth),
    Int,
}

/// A type as declared, whose sizes may be generic.
pub type DeclarationType = GType<Constant>;

/// A type whose sizes are all known.
pub type ConcreteType = GType<usize>;

pub type DeclarationStructMember = GStructMember<Constant>;

pub type ConcreteStructMember = GStructMember<usize>;

pub type DeclarationArrayType = GArrayType<Constant>;

pub type ConcreteArrayType = GArrayType<usize>;

pub type DeclarationStructType = GStructType<Constant>;

pub type ConcreteStructType = GStructType<usize>;

/// The types of a function's inputs and outputs.
#[derive(Debug)]
pub struct GSignature<S> {
    pub inputs: Vec<GType<S>>,
    pub outputs: Vec<GType<S>>,
}

pub type DeclarationSignature = GSignature<Constant>;

pub type ConcreteSignature = GSignature<usize>;

/// A function's name and signature.
#[derive(Debug)]
pub struct GFunctionKey<S> {
    pub id: String,
    pub signature: GSignature<S>,
}

pub type DeclarationFunctionKey = GFunctionKey<Constant>;

pub type ConcreteFunctionKey = GFunctionKey<usize>;

/// How a size is written in a type.
pub trait SizeText {
    /// The text of the size.
    spec fn text(&self) -> Seq<char>;

    /// Writes the size.
    fn to_text(&self) -> (r: String)
        ensures
            r@ == self.text(),
    ;
}

impl SizeText for usize {
    open spec fn text(&self) -> Seq<char> {
        decimal(*self as nat)
    }

    fn to_text(&self) -> (r: String) {
        usize_to_decimal(*self)
    }
}

impl SizeText for Constant {
    open spec fn text(&self) -> Seq<char> {
        match *self {
            Constant::Generic(id) => id@,
            Constant::Concrete(v) => decimal(v as nat),
        }
    }

    fn to_text(&self) -> (r: String) {
        self.to_string()
    }
}

/// The number of bits of a width.
pub open spec fn width(b: UBitwidth) -> nat {
    match b {
        UBitwidth::B8 => 8,
        UBitwidth::B16 => 16,
        UBitwidth::B32 => 32,
    }
}

impl UBitwidth {
    /// The width of `b` bits, which is 8, 16 or 32.
    pub fn from_usize(b: usize) -> (r: UBitwidth)
        requires
            b == 8 || b == 16 || b == 32,
        ensures
            width(r) == b,
    {
        if b == 8 {
            UBitwidth::B8
        } else if b == 16 {
            UBitwidth::B16
        } else {
            UBitwidth::B32
        }
    }

    /// The number of bits.
    pub fn to_usize(&self) -> (r: usize)
        ensures
            r == width(*self),
    {
        match self {
            UBitwidth::B8 => 8,
            UBitwidth::B16 => 16,
            UBitwidth::B32 => 32,
        }
    }
}

impl<S> GStructMember<S> {
    /// The member `id` of type `ty`.
    pub fn new(id: String, ty: GType<S>) -> (r: Self)
        ensures
            r.id == id,
            *r.ty == ty,
    {
        GStructMember { id, ty: Box::new(ty) }
    }
}

impl<S> GArrayType<S> {
    /// The array of `size` elements of type `ty`.
    pub fn new(ty: GType<S>, size: S) -> (r: Self)
        ensures
            *r.ty == ty,
            r.size == size,
    {
        GArrayType { ty: Box::new(ty), size }
    }
}

impl<S> GStructType<S> {
    /// The struct `name` of `module` with `members`.
    pub fn new(module: String, name: String, members: Vec<GStructMember<S>>) -> (r: Self)
        ensures
            r.module == module,
            r.name == name,
            r.members == members,
    {
        GStructType { module, name, members }
    }

    /// The number of members.
    pub fn len(&self) -> (r: usize)
        ensures
            r == self.members@.len(),
    {
        self.members.len()
    }

    /// The members in order.
    pub fn iter(&self) -> (r: &[GStructMember<S>])
        ensures
            r@ == self.members@,
    {
        self.members.as_slice()
    }
}

impl<S> GType<S> {
    /// The array of `size` elements of type `ty`.
    pub fn array(ty: GType<S>, size: S) -> (r: Self)
        ensures
            r matches GType::Array(a) && *a.ty == ty && a.size == size,
    {
        GType::Array(GArrayType::new(ty, size))
    }

    /// The struct type `struct_ty`.
    pub fn struc(struct_ty: GStructType<S>) -> (r: Self)
        ensures
            r == GType::Struct(struct_ty),
    {
        GType::Struct(struct_ty)
    }

    /// The unsigned integer type of width `b`.
    pub fn uint(b: UBitwidth) -> (r: Self)
        ensures
            r == GType::<S>::Uint(b),
    {
        GType::Uint(b)
    }
}

impl<S> GSignature<S> {
    /// The signature with no inputs and no outputs.
    pub fn new() -> (r: Self)
        ensures
            r.inputs@.len() == 0,
            r.outputs@.len() == 0,
    {
        GSignature { inputs: Vec::new(), outputs: Vec::new() }
    }

    /// The signature with `inputs` as its inputs.
    pub fn inputs(self, inputs: Vec<GType<S>>) -> (r: Self)
        ensures
            r.inputs == inputs,
            r.outputs == self.outputs,
    {
        GSignature { inputs, outputs: self.outputs }
    }

    /// The signature with `outputs` as its outputs.
    pub fn outputs(self, outputs: Vec<GType<S>>) -> (r: Self)
        ensures
            r.inputs == self.inputs,
            r.outputs == outputs,
    {
        GSignature { inputs: self.inputs, outputs }
    }
}

impl<S> GFunctionKey<S> {
    /// The function `id` with the empty signature.
    pub fn with_id(id: String) -> (r: Self)
        ensures
            r.id == id,
            r.signature.inputs@.len() == 0,
            r.signature.outputs@.len() == 0,
    {
        GFunctionKey { id, signature: GSignature::new() }
    }

    /// The key with `signature` as its signature.
    pub fn signature(self, signature: GSignature<S>) -> (r: Self)
        ensures
            r.id == self.id,
            r.signature == signature,
    {
        GFunctionKey { id: self.id, signature }
    }

    /// The key with `id` as its name.
    pub fn id(self, id: String) -> (r: Self)
        ensures
            r.id == id,
            r.signature == self.signature,
    {
        GFunctionKey { id, signature: self.signature }
    }
}

/// How a type is written: `field`, `bool`, `u8`, `{integer}`, `T[n]`, or a
/// struct's name.
pub open spec fn type_text<S: SizeText>(t: GType<S>) -> Seq<char>
    decreases t,
{
    match t {
        GType::FieldElement => seq!['f', 'i', 'e', 'l', 'd'],
        GType::Boolean => seq!['b', 'o', 'o', 'l'],
        GType::Uint(b) => seq!['u'] + decimal(width(b)),
        GType::Int => seq!['{', 'i', 'n', 't', 'e', 'g', 'e', 'r', '}'],
        GType::Array(a) => type_text(*a.ty) + seq!['['] + a.size.text() + seq![']'],
        GType::Struct(s) => s.name@,
    }
}

/// The types written one after the other, separated by `, `.
pub open spec fn type_list_text<S: SizeText>(ts: Seq<GType<S>>) -> Seq<char>
    decreases ts.len(),
{
    if ts.len() == 0 {
        seq![]
    } else if ts.len() == 1 {
        type_text(ts[0])
    } else {
        type_list_text(ts.drop_last()) + seq![',', ' '] + type_text(ts.last())
    }
}

/// How a signature is written: `(inputs)`, then ` -> output` for one output,
/// or ` -> (outputs)` for several.
pub open spec fn signature_text<S: SizeText>(s: GSignature<S>) -> Seq<char> {
    seq!['('] + type_list_text(s.inputs@) + seq![')'] + if s.outputs@.len() == 0 {
        seq![]
    } else if s.outputs@.len() == 1 {
        seq![' ', '-', '>', ' '] + type_text(s.outputs@[0])
    } else {
        seq![' ', '-', '>', ' ', '('] + type_list_text(s.outputs@) + seq![')']
    }
}

/// A slug exists for the type: it holds no `Int` outside a struct.
pub open spec fn has_slug(t: ConcreteType) -> bool
    decreases t,
{
    match t {
        GType::Int => false,
        GType::Array(a) => has_slug(*a.ty),
        _ => true,
    }
}

/// How a struct member is written in a slug: `name:type`.
pub open spec fn member_slug(m: ConcreteStructMember) -> Seq<char> {
    m.id@ + seq![':'] + type_text(*m.ty)
}

/// The members of a struct in a slug, separated by `,`.
pub open spec fn members_slug(ms: Seq<ConcreteStructMember>) -> Seq<char>
    decreases ms.len(),
{
    if ms.len() == 0 {
        seq![]
    } else if ms.len() == 1 {
        member_slug(ms[0])
    } else {
        members_slug(ms.drop_last()) + seq![','] + member_slug(ms.last())
    }
}

/// The slug of a type: `f`, `b`, `u8`, `T[n]`, or `{name:type,…}`.
pub open spec fn type_slug(t: ConcreteType) -> Seq<char>
    decreases t,
{
    match t {
        GType::FieldElement => seq!['f'],
        GType::Boolean => seq!['b'],
        GType::Uint(b) => seq!['u'] + decimal(width(b)),
        GType::Int => seq![],
        GType::Array(a) => type_slug(*a.ty) + seq!['['] + decimal(a.size as nat) + seq![']'],
        GType::Struct(s) => seq!['{'] + members_slug(s.members@) + seq!['}'],
    }
}

impl UBitwidth {
    /// The width's name: `u8`, `u16` or `u32`.
    fn width_name(&self) -> (r: String)
        ensures
            r@ == seq!['u'] + decimal(width(*self)),
    {
        let mut s = String::from_str("u");
        s.append(usize_to_decimal(self.to_usize()).as_str());
        proof { reveal_strlit("u"); }
        assert(s@ =~= seq!['u'] + decimal(width(*self)));
        s
    }
}

/// Writes the types separated by `, `.
fn list_to_string<S: SizeText>(ts: &Vec<GType<S>>) -> (r: String)
    ensures
        r@ == type_list_text(ts@),
{
    let mut s = String::new();
    let mut i: usize = 0;
    while i < ts.len()
        invariant
            i <= ts@.len(),
            s@ == type_list_text(ts@.take(i as int)),
        decreases ts@.len() - i,
    {
        if i > 0 {
            s.append(", ");
        }
        s.append(ts[i].to_string().as_str());
        proof {
            reveal_strlit(", ");
            let q = ts@.take(i + 1);
            assert(q.drop_last() =~= ts@.take(i as int));
            assert(q.last() == ts@[i as int]);
            assert(s@ =~= type_list_text(q));
        }
        i = i + 1;
    }
    proof {
        assert(ts@.take(i as int) =~= ts@);
    }
    s
}

impl<S: SizeText> GType<S> {
    /// Writes the type.
    pub fn to_string(&self) -> (r: String)
        ensures
            r@ == type_text(*self),
        decreases self,
    {
        match self {
            GType::FieldElement => {
                proof { reveal_strlit("field"); }
                String::from_str("field")
            },
            GType::Boolean => {
                proof { reveal_strlit("bool"); }
                String::from_str("bool")
            },
            GType::Uint(b) => b.width_name(),
            GType::Int => {
                proof { reveal_strlit("{integer}"); }
                String::from_str("{integer}")
            },
            GType::Array(a) => {
                let mut s = a.ty.to_string();
                s.append("[");
                s.append(a.size.to_text().as_str());
                s.append("]");
                proof {
                    reveal_strlit("[");
                    reveal_strlit("]");
                }
                assert(s@ =~= type_text(*self));
                s
            },
            GType::Struct(st) => st.name.clone(),
        }
    }
}

impl GType<usize> {
    /// The slug of the type.
    pub fn to_slug(&self) -> (r: String)
        requires
            has_slug(*self),
        ensures
            r@ == type_slug(*self),
        decreases self,
    {
        match self {
            GType::FieldElement => {
                proof { reveal_strlit("f"); }
                String::from_str("f")
            },
            GType::Boolean => {
                proof { reveal_strlit("b"); }
                String::from_str("b")
            },
            GType::Uint(b) => b.width_name(),
            GType::Int => String::new(),
            GType::Array(a) => {
                let mut s = a.ty.to_slug();
                s.append("[");
                s.append(usize_to_decimal(a.size).as_str());
                s.append("]");
                proof {
                    reveal_strlit("[");
                    reveal_strlit("]");
                }
                assert(s@ =~= type_slug(*self));
                s
            },
            GType::Struct(st) => {
                let mut s = String::from_str("{");
                proof {
                    reveal_strlit("{");
                    assert(members_slug(st.members@.take(0)) == Seq::<char>::empty());
                    assert(s@ =~= seq!['{'] + members_slug(st.members@.take(0)));
                }
                let mut i: usize = 0;
                while i < st.members.len()
                    invariant
                        i <= st.members@.len(),
                        s@ == seq!['{'] + members_slug(st.members@.take(i as int)),
                    decreases st.members@.len() - i,
                {
                    if i > 0 {
                        s.append(",");
                    }
                    let m = &st.members[i];
                    s.append(m.id.as_str());
                    s.append(":");
                    s.append(m.ty.to_string().as_str());
                    proof {
                        reveal_strlit(",");
                        reveal_strlit(":");
                        let q = st.members@.take(i + 1);
                        assert(q.drop_last() =~= st.members@.take(i as int));
                        assert(q.last() == st.members@[i as int]);
                        assert(s@ =~= seq!['{'] + members_slug(q));
                    }
                    i = i + 1;
                }
                s.append("}");
                proof {
                    reveal_strlit("{");
                    reveal_strlit("}");
                    assert(st.members@.take(i as int) =~= st.members@);
                }
                assert(s@ =~= type_slug(*self));
                s
            },
        }
    }
}

impl<S: SizeText> GSignature<S> {
    /// Writes the signature: `(inputs)`, then ` -> output` for one output, or
    /// ` -> (outputs)` for several.
    pub fn to_string(&self) -> (r: String)
        ensures
            r@ == signature_text(*self),
    {
        let mut s = String::from_str("(");
        s.append(list_to_string(&self.inputs).as_str());
        s.append(")");
        proof {
            reveal_strlit("(");
            reveal_strlit(")");
        }
        let ghost head = s@;
        if self.outputs.len() == 1 {
            s.append(" -> ");
            s.append(self.outputs[0].to_string().as_str());
            proof { reveal_strlit(" -> "); }
        } else if self.outputs.len() > 1 {
            s.append(" -> (");
            s.append(list_to_string(&self.outputs).as_str());
            s.append(")");
            proof { reveal_strlit(" -> ("); }
        }
        assert(s@ =~= signature_text(*self));
        s
    }
}

/// Two concrete types are equal: the same kind, arrays of the same size and
/// element type, structs with the same members (names and types) in order.
pub open spec fn same_type(a: ConcreteType, b: ConcreteType) -> bool
    decreases a,
{
    match a {
        GType::FieldElement => b is FieldElement,
        GType::Boolean => b is Boolean,
        GType::Int => b is Int,
        GType::Uint(x) => b is Uint && b->Uint_0 == x,
        GType::Array(x) => match b {
            GType::Array(y) => x.size == y.size && same_type(*x.ty, *y.ty),
            _ => false,
        },
        GType::Struct(x) => match b {
            GType::Struct(y) => x.members@.len() == y.members@.len() && forall|i: int|
                0 <= i < x.members@.len() ==> x.members@[i].id@ == y.members@[i].id@ && same_type(
                    *x.members@[i].ty,
                    *y.members@[i].ty,
                ),
            _ => false,
        },
    }
}

/// The number of field elements that a value of the type takes.
pub open spec fn primitive_count(t: ConcreteType) -> int
    decreases t,
{
    match t {
        GType::Array(a) => a.size * primitive_count(*a.ty),
        GType::Struct(s) => members_count(member_counts(s)),
        GType::Int => 0,
        _ => 1,
    }
}

/// The counts of a struct's members, in order.
pub open spec fn member_counts(s: ConcreteStructType) -> Seq<int>
    decreases s,
{
    Seq::new(
        s.members@.len(),
        |i: int|
            if 0 <= i < s.members@.len() {
                primitive_count(*s.members@[i].ty)
            } else {
                0
            },
    )
}

/// The sum of a list of counts.
pub open spec fn members_count(counts: Seq<int>) -> int
    decreases counts.len(),
{
    if counts.len() == 0 {
        0
    } else {
        members_count(counts.drop_last()) + counts.last()
    }
}

/// A count exists for the type and fits in a `usize`: no `Int` inside it, and
/// no count along the way above `usize::MAX`.
pub open spec fn countable(t: ConcreteType) -> bool
    decreases t,
{
    match t {
        GType::Int => false,
        GType::Array(a) => countable(*a.ty) && a.size * primitive_count(*a.ty) <= usize::MAX,
        GType::Struct(s) => (forall|i: int|
            0 <= i < s.members@.len() ==> countable(*s.members@[i].ty)) && members_count(
            member_counts(s),
        ) <= usize::MAX,
        _ => true,
    }
}

proof fn lemma_count_nonneg(t: ConcreteType)
    ensures
        primitive_count(t) >= 0,
    decreases t,
{
    match t {
        GType::Array(a) => {
            lemma_count_nonneg(*a.ty);
            assert(a.size * primitive_count(*a.ty) >= 0) by (nonlinear_arith)
                requires
                    primitive_count(*a.ty) >= 0,
            ;
        },
        GType::Struct(s) => {
            assert forall|i: int| 0 <= i < member_counts(s).len() implies #[trigger] member_counts(
                s,
            )[i] >= 0 by {
                lemma_count_nonneg(*s.members@[i].ty);
            }
            lemma_prefix_count(member_counts(s), member_counts(s).len() as int);
        },
        _ => {},
    }
}

proof fn lemma_prefix_count(c: Seq<int>, i: int)
    requires
        0 <= i <= c.len(),
        forall|j: int| 0 <= j < c.len() ==> #[trigger] c[j] >= 0,
    ensures
        0 <= members_count(c.take(i)) <= members_count(c),
    decreases c.len(),
{
    if c.len() > 0 {
        if i == c.len() {
            assert(c.take(i) =~= c);
            assert(c.drop_last().take(i - 1) =~= c.drop_last());
            lemma_prefix_count(c.drop_last(), i - 1);
        } else {
            assert(c.take(i) =~= c.drop_last().take(i));
            lemma_prefix_count(c.drop_last(), i);
        }
    } else {
        assert(c.take(i) =~= c);
    }
}

/// Whether two concrete types are equal.
pub fn types_equal(a: &ConcreteType, b: &ConcreteType) -> (r: bool)
    ensures
        r == same_type(*a, *b),
    decreases a,
{
    match (a, b) {
        (GType::FieldElement, GType::FieldElement) => true,
        (GType::Boolean, GType::Boolean) => true,
        (GType::Int, GType::Int) => true,
        (GType::Uint(x), GType::Uint(y)) => *x == *y,
        (GType::Array(x), GType::Array(y)) => x.size == y.size && types_equal(&x.ty, &y.ty),
        (GType::Struct(x), GType::Struct(y)) => {
            if x.members.len() != y.members.len() {
                return false;
            }
            let mut i: usize = 0;
            while i < x.members.len()
                invariant
                    *a == GType::<usize>::Struct(*x),
                    *b == GType::<usize>::Struct(*y),
                    i <= x.members@.len(),
                    x.members@.len() == y.members@.len(),
                    forall|j: int|
                        0 <= j < i ==> x.members@[j].id@ == y.members@[j].id@ && same_type(
                            *x.members@[j].ty,
                            *y.members@[j].ty,
                        ),
                decreases x.members@.len() - i,
            {
                let same_id = x.members[i].id.eq(&y.members[i].id);
                if !same_id {
                    assert(x.members@[i as int].id@ != y.members@[i as int].id@);
                    assert(!same_type(*a, *b));
                    return false;
                }
                proof {
                    assert(decreases_to!(x.members => x.members@));
                    assert(decreases_to!(x.members@ => x.members@[i as int]));
                    assert(decreases_to!(*a => a->Struct_0));
                    assert(decreases_to!(a->Struct_0 => a->Struct_0.members));
                    assert(decreases_to!(x.members@[i as int] => x.members@[i as int].ty));
                    assert(decreases_to!(*a => x.members@[i as int].ty));
                }
                if !types_equal(&x.members[i].ty, &y.members[i].ty) {
                    return false;
                }
                i = i + 1;
            }
            true
        },
        _ => false,
    }
}

/// Consecutive equal types grouped into runs: each run's length and first type.
pub open spec fn runs(ts: Seq<ConcreteType>) -> Seq<(nat, ConcreteType)>
    decreases ts.len(),
{
    if ts.len() == 0 {
        seq![]
    } else {
        let r = runs(ts.drop_last());
        if r.len() > 0 && same_type(r.last().1, ts.last()) {
            r.update(r.len() - 1, ((r.last().0 + 1) as nat, r.last().1))
        } else {
            r.push((1nat, ts.last()))
        }
    }
}

/// A run in a slug: its length when above one, then its type's slug.
pub open spec fn run_slug(x: (nat, ConcreteType)) -> Seq<char> {
    (if x.0 > 1 {
        decimal(x.0)
    } else {
        seq![]
    }) + type_slug(x.1)
}

/// The runs' slugs one after the other.
pub open spec fn runs_slug(rs: Seq<(nat, ConcreteType)>) -> Seq<char>
    decreases rs.len(),
{
    if rs.len() == 0 {
        seq![]
    } else {
        runs_slug(rs.drop_last()) + run_slug(rs.last())
    }
}

/// The slug of a list of types: `[field, field, bool, field]` gives `2fbf`.
pub open spec fn list_slug(ts: Seq<ConcreteType>) -> Seq<char> {
    runs_slug(runs(ts))
}

/// The slug of a signature: `i`, the inputs' slug, `o`, the outputs' slug.
pub open spec fn signature_slug(s: ConcreteSignature) -> Seq<char> {
    seq!['i'] + list_slug(s.inputs@) + seq!['o'] + list_slug(s.outputs@)
}

/// Every type of the list has a slug.
pub open spec fn all_have_slugs(ts: Seq<ConcreteType>) -> bool {
    forall|i: int| 0 <= i < ts.len() ==> has_slug(#[trigger] ts[i])
}

/// The runs of `ts` as the lengths and the places of their first types.
fn group_runs(ts: &Vec<ConcreteType>) -> (r: Vec<(usize, usize)>)
    ensures
        r@.len() == runs(ts@).len(),
        forall|k: int| 0 <= k < r@.len() ==> #[trigger] r@[k].1 < ts@.len(),
        forall|k: int|
            0 <= k < r@.len() ==> runs(ts@)[k] == (#[trigger] r@[k].0 as nat, ts@[r@[k].1 as int]),
{
    let mut res: Vec<(usize, usize)> = Vec::new();
    let mut i: usize = 0;
    while i < ts.len()
        invariant
            i <= ts@.len(),
            res@.len() == runs(ts@.take(i as int)).len(),
            forall|k: int| 0 <= k < res@.len() ==> #[trigger] res@[k].1 < i && res@[k].0 <= i,
            forall|k: int|
                0 <= k < res@.len() ==> runs(ts@.take(i as int))[k] == (
                    #[trigger] res@[k].0 as nat,
                    ts@[res@[k].1 as int],
                ),
        decreases ts@.len() - i,
    {
        let ghost q = ts@.take(i + 1);
        proof {
            assert(q.drop_last() =~= ts@.take(i as int));
            assert(q.last() == ts@[i as int]);
        }
        let n = res.len();
        if n > 0 && types_equal(&ts[res[n - 1].1], &ts[i]) {
            let (c, f) = res[n - 1];
            res.set(n - 1, (c + 1, f));
        } else {
            res.push((1, i));
        }
        i = i + 1;
    }
    proof {
        assert(ts@.take(i as int) =~= ts@);
    }
    res
}

/// The slug of a list of types.
fn list_to_slug(ts: &Vec<ConcreteType>) -> (r: String)
    requires
        all_have_slugs(ts@),
    ensures
        r@ == list_slug(ts@),
{
    let rs = group_runs(ts);
    let ghost all = runs(ts@);
    let mut s = String::new();
    let mut k: usize = 0;
    while k < rs.len()
        invariant
            k <= rs@.len(),
            rs@.len() == all.len(),
            all == runs(ts@),
            all_have_slugs(ts@),
            forall|j: int| 0 <= j < rs@.len() ==> #[trigger] rs@[j].1 < ts@.len(),
            forall|j: int|
                0 <= j < rs@.len() ==> all[j] == (#[trigger] rs@[j].0 as nat, ts@[rs@[j].1 as int]),
            s@ == runs_slug(all.take(k as int)),
        decreases rs@.len() - k,
    {
        let (n, f) = rs[k];
        proof {
            assert(rs@[k as int].1 < ts@.len());
            assert(all[k as int] == (rs@[k as int].0 as nat, ts@[rs@[k as int].1 as int]));
            assert(has_slug(ts@[f as int]));
        }
        if n > 1 {
            s.append(usize_to_decimal(n).as_str());
        }
        s.append(ts[f].to_slug().as_str());
        proof {
            let q = all.take(k + 1);
            assert(q.drop_last() =~= all.take(k as int));
            assert(q.last() == all[k as int]);
            assert(s@ =~= runs_slug(q));
        }
        k = k + 1;
    }
    proof {
        assert(all.take(k as int) =~= all);
    }
    s
}

impl GSignature<usize> {
    /// The slug of the signature: `i{inputs}o{outputs}`, where a list of types
    /// writes each run of equal types once, after its length when above one.
    pub fn to_slug(&self) -> (r: String)
        requires
            all_have_slugs(self.inputs@),
            all_have_slugs(self.outputs@),
        ensures
            r@ == signature_slug(*self),
    {
        let mut s = String::from_str("i");
        s.append(list_to_slug(&self.inputs).as_str());
        s.append("o");
        s.append(list_to_slug(&self.outputs).as_str());
        proof {
            reveal_strlit("i");
            reveal_strlit("o");
        }
        assert(s@ =~= signature_slug(*self));
        s
    }
}

impl GFunctionKey<usize> {
    /// The slug of the key: its name, `_`, and its signature's slug.
    pub fn to_slug(&self) -> (r: String)
        requires
            all_have_slugs(self.signature.inputs@),
            all_have_slugs(self.signature.outputs@),
        ensures
            r@ == self.id@ + seq!['_'] + signature_slug(self.signature),
    {
        let mut s = self.id.clone();
        s.append("_");
        s.append(self.signature.to_slug().as_str());
        proof {
            reveal_strlit("_");
        }
        assert(s@ =~= self.id@ + seq!['_'] + signature_slug(self.signature));
        s
    }
}

impl GType<usize> {
    /// The number of field elements that a value of the type takes.
    pub fn get_primitive_count(&self) -> (r: usize)
        requires
            countable(*self),
        ensures
            r == primitive_count(*self),
        decreases self,
    {
        match self {
            GType::FieldElement => 1,
            GType::Boolean => 1,
            GType::Uint(_) => 1,
            GType::Int => 0,
            GType::Array(a) => {
                let c = a.ty.get_primitive_count();
                a.size * c
            },
            GType::Struct(st) => {
                let ghost counts = member_counts(*st);
                proof {
                    assert forall|j: int| 0 <= j < counts.len() implies #[trigger] counts[j] >= 0 by {
                        lemma_count_nonneg(*st.members@[j].ty);
                    }
                }
                let mut acc: usize = 0;
                let mut i: usize = 0;
                while i < st.members.len()
                    invariant
                        *self == GType::<usize>::Struct(*st),
                        i <= st.members@.len(),
                        counts == member_counts(*st),
                        counts.len() == st.members@.len(),
                        forall|j: int| 0 <= j < counts.len() ==> #[trigger] counts[j] >= 0,
                        forall|j: int|
                            0 <= j < st.members@.len() ==> countable(*st.members@[j].ty),
                        members_count(counts) <= usize::MAX,
                        acc == members_count(counts.take(i as int)),
                    decreases st.members@.len() - i,
                {
                    proof {
                        assert(decreases_to!(st.members => st.members@));
                        assert(decreases_to!(st.members@ => st.members@[i as int]));
                        assert(decreases_to!(*self => self->Struct_0));
                        assert(decreases_to!(self->Struct_0 => self->Struct_0.members));
                        assert(decreases_to!(st.members@[i as int] => st.members@[i as int].ty));
                        assert(decreases_to!(*self => st.members@[i as int].ty));
                    }
                    let c = st.members[i].ty.get_primitive_count();
                    proof {
                        let q = counts.take(i + 1);
                        assert(q.drop_last() =~= counts.take(i as int));
                        assert(q.last() == counts[i as int]);
                        lemma_prefix_count(counts, i + 1);
                    }
                    acc = acc + c;
                    i = i + 1;
                }
                proof {
                    assert(counts.take(i as int) =~= counts);
                }
                acc
            },
        }
    }
}

impl Constant {
    /// The size `v`.
    pub fn from_u32(v: u32) -> (r: Constant)
        ensures
            r == Constant::Concrete(v),
    {
        Constant::Concrete(v)
    }

    /// The generic size named `id`.
    pub fn from_identifier(id: String) -> (r: Constant)
        ensures
            r == Constant::Generic(id),
    {
        Constant::Generic(id)
    }
}

impl Constant {
    /// Writes the size: its name, or its value.
    pub fn to_string(&self) -> (r: String)
        ensures
            r@ == match *self {
                Constant::Generic(id) => id@,
                Constant::Concrete(v) => decimal(v as nat),
            },
    {
        match self {
            Constant::Generic(id) => id.clone(),
            Constant::Concrete(v) => usize_to_decimal(*v as usize),
        }
    }

    /// The value of a concrete size; a generic one has none.
    pub fn try_into(self) -> (r: Result<usize, ()>)
        ensures
            match self {
                Constant::Concrete(v) => r == Ok::<usize, ()>(v as usize),
                Constant::Generic(_) => r is Err,
            },
    {
        match self {
            Constant::Concrete(v) => Ok(v as usize),
            Constant::Generic(_) => Err(()),
        }
    }
}

impl PartialEq for Constant {
    /// Sizes of declared types all compare equal at this stage.
    fn eq(&self, other: &Constant) -> (r: bool) {
        true
    }
}

impl vstd::std_specs::cmp::PartialEqSpecImpl for Constant {
    open spec fn obeys_eq_spec() -> bool {
        true
    }

    open spec fn eq_spec(&self, other: &Constant) -> bool {
        true
    }
}

impl Eq for Constant {

}

/// The values bound to generic sizes, as names and values.
pub open spec fn constants_view(v: Seq<(String, u32)>) -> Seq<(Seq<char>, u32)> {
    v.map_values(|c: (String, u32)| (c.0@, c.1))
}

/// The value bound to `name`, if any: the first entry with that name.
pub open spec fn find_constant(c: Seq<(Seq<char>, u32)>, name: Seq<char>) -> Option<u32>
    decreases c.len(),
{
    if c.len() == 0 {
        None
    } else if c[0].0 == name {
        Some(c[0].1)
    } else {
        find_constant(c.drop_first(), name)
    }
}

/// Whether a concrete type fits a declared one, with the generic sizes bound
/// so far: arrays fit when their element types fit and their sizes agree (a
/// generic size not yet bound is bound to the concrete one); field, bool,
/// and uints of the same width fit; any two structs fit. Gives the bindings
/// after the check.
pub open spec fn check_spec(decl: DeclarationType, ty: ConcreteType, consts: Seq<(Seq<char>, u32)>) -> (
    bool,
    Seq<(Seq<char>, u32)>,
)
    decreases decl,
{
    match decl {
        GType::Array(t0) => match ty {
            GType::Array(t1) => {
                let s1 = t1.size as u32;
                let inner = check_spec(*t0.ty, *t1.ty, consts);
                if !inner.0 {
                    inner
                } else {
                    match t0.size {
                        Constant::Generic(id) => match find_constant(inner.1, id@) {
                            Some(v) => (v == s1, inner.1),
                            None => (true, inner.1.push((id@, s1))),
                        },
                        Constant::Concrete(s0) => (s0 == s1, inner.1),
                    }
                }
            },
            _ => (false, consts),
        },
        GType::FieldElement => (ty is FieldElement, consts),
        GType::Boolean => (ty is Boolean, consts),
        GType::Uint(b0) => (ty is Uint && ty->Uint_0 == b0, consts),
        GType::Struct(_) => (ty is Struct, consts),
        GType::Int => (false, consts),
    }
}

/// The declared and concrete types checked pairwise, in order, up to the
/// shorter list or the first that does not fit.
pub open spec fn check_all(
    decls: Seq<DeclarationType>,
    tys: Seq<ConcreteType>,
    consts: Seq<(Seq<char>, u32)>,
) -> (bool, Seq<(Seq<char>, u32)>)
    decreases decls.len(),
{
    if decls.len() == 0 || tys.len() == 0 {
        (true, consts)
    } else {
        let first = check_spec(decls[0], tys[0], consts);
        if !first.0 {
            first
        } else {
            check_all(decls.drop_first(), tys.drop_first(), first.1)
        }
    }
}

/// The value bound to `name` in the list, if any.
fn find_constant_in(constants: &Vec<(String, u32)>, name: &String) -> (r: Option<u32>)
    ensures
        r == find_constant(constants_view(constants@), name@),
{
    let ghost c = constants_view(constants@);
    let mut i: usize = 0;
    assert(c.skip(0) =~= c);
    while i < constants.len()
        invariant
            i <= constants@.len(),
            c == constants_view(constants@),
            find_constant(c, name@) == find_constant(c.skip(i as int), name@),
        decreases constants@.len() - i,
    {
        proof {
            assert(c.skip(i as int)[0] == c[i as int]);
            assert(c.skip(i as int).drop_first() =~= c.skip(i + 1));
        }
        if constants[i].0.eq(name) {
            return Some(constants[i].1);
        }
        i = i + 1;
    }
    assert(c.skip(i as int) =~= Seq::<(Seq<char>, u32)>::empty());
    None
}

/// Checks that a concrete type fits a declared one, binding generic sizes in
/// `constants` as it goes.
pub fn check_type(decl_ty: &DeclarationType, ty: &ConcreteType, constants: &mut Vec<(String, u32)>) -> (r: bool)
    ensures
        (r, constants_view(final(constants)@)) == check_spec(*decl_ty, *ty, constants_view(old(constants)@)),
    decreases decl_ty,
{
    match decl_ty {
        GType::Array(t0) => match ty {
            GType::Array(t1) => {
                let s1 = t1.size as u32;
                if !check_type(&t0.ty, &t1.ty, constants) {
                    return false;
                }
                match &t0.size {
                    Constant::Generic(id) => match find_constant_in(constants, id) {
                        Some(v) => v == s1,
                        None => {
                            let ghost before = constants@;
                            constants.push((id.clone(), s1));
                            proof {
                                assert(constants_view(constants@) =~= constants_view(before).push(
                                    (id@, s1),
                                ));
                            }
                            true
                        },
                    },
                    Constant::Concrete(s0) => *s0 == s1,
                }
            },
            _ => false,
        },
        GType::FieldElement => match ty {
            GType::FieldElement => true,
            _ => false,
        },
        GType::Boolean => match ty {
            GType::Boolean => true,
            _ => false,
        },
        GType::Uint(b0) => match ty {
            GType::Uint(b1) => *b0 == *b1,
            _ => false,
        },
        GType::Struct(_) => match ty {
            GType::Struct(_) => true,
            _ => false,
        },
        GType::Int => false,
    }
}

/// The `i`-th type of `a` followed by `b`.
fn nth_type<'a, S>(a: &'a Vec<GType<S>>, b: &'a Vec<GType<S>>, i: u128) -> (r: &'a GType<S>)
    requires
        i < a@.len() + b@.len(),
    ensures
        *r == (a@ + b@)[i as int],
{
    if i < a.len() as u128 {
        assert((a@ + b@)[i as int] == a@[i as int]);
        &a[i as usize]
    } else {
        let k = i - a.len() as u128;
        let bl = b.len();
        assert(k < bl as u128);
        let j = k as usize;
        assert(j == k);
        assert((a@ + b@)[i as int] == b@[j as int]);
        &b[j]
    }
}

/// Checks the declared types against the concrete ones pairwise, binding
/// generic sizes in `constants`.
fn check_types(
    decls_in: &Vec<DeclarationType>,
    decls_out: &Vec<DeclarationType>,
    tys_in: &Vec<ConcreteType>,
    tys_out: &Vec<ConcreteType>,
    constants: &mut Vec<(String, u32)>,
) -> (r: bool)
    ensures
        (r, constants_view(final(constants)@)) == check_all(
            decls_in@ + decls_out@,
            tys_in@ + tys_out@,
            constants_view(old(constants)@),
        ),
{
    let ghost d = decls_in@ + decls_out@;
    let ghost t = tys_in@ + tys_out@;
    let nd: u128 = decls_in.len() as u128 + decls_out.len() as u128;
    let nt: u128 = tys_in.len() as u128 + tys_out.len() as u128;
    let mut i: u128 = 0;
    proof {
        assert(d.skip(0) =~= d);
        assert(t.skip(0) =~= t);
    }
    while i < nd && i < nt
        invariant
            d == decls_in@ + decls_out@,
            t == tys_in@ + tys_out@,
            nd == d.len(),
            nt == t.len(),
            i <= nd,
            i <= nt,
            check_all(d, t, constants_view(old(constants)@)) == check_all(
                d.skip(i as int),
                t.skip(i as int),
                constants_view(constants@),
            ),
        decreases nd - i,
    {
        let dt = nth_type(decls_in, decls_out, i);
        let ct = nth_type(tys_in, tys_out, i);
        proof {
            assert(d.skip(i as int)[0] == d[i as int]);
            assert(t.skip(i as int)[0] == t[i as int]);
            assert(d.skip(i as int).drop_first() =~= d.skip(i + 1));
            assert(t.skip(i as int).drop_first() =~= t.skip(i + 1));
        }
        if !check_type(dt, ct, constants) {
            return false;
        }
        i = i + 1;
    }
    true
}

impl GSignature<usize> {
    /// Whether this signature fits a declared one: each declared input and
    /// output fits the concrete one in its place, each generic size taking
    /// one value throughout.
    pub fn matches_declaration(&self, other: &DeclarationSignature) -> (r: bool)
        ensures
            r == check_all(
                other.inputs@ + other.outputs@,
                self.inputs@ + self.outputs@,
                Seq::empty(),
            ).0,
    {
        let mut constants: Vec<(String, u32)> = Vec::new();
        proof {
            assert(constants_view(constants@) =~= Seq::<(Seq<char>, u32)>::empty());
        }
        check_types(&other.inputs, &other.outputs, &self.inputs, &self.outputs, &mut constants)
    }
}

impl GSignature<Constant> {
    /// The values that the generic sizes of this declared signature take in a
    /// concrete one that fits it, in the order in which they are met.
    pub fn specialize(&self, concrete_signature: &ConcreteSignature) -> (r: Vec<(String, u32)>)
        requires
            check_all(
                self.inputs@ + self.outputs@,
                concrete_signature.inputs@ + concrete_signature.outputs@,
                Seq::empty(),
            ).0,
        ensures
            constants_view(r@) == check_all(
                self.inputs@ + self.outputs@,
                concrete_signature.inputs@ + concrete_signature.outputs@,
                Seq::empty(),
            ).1,
    {
        let mut constants: Vec<(String, u32)> = Vec::new();
        proof {
            assert(constants_view(constants@) =~= Seq::<(Seq<char>, u32)>::empty());
        }
        check_types(
            &self.inputs,
            &self.outputs,
            &concrete_signature.inputs,
            &concrete_signature.outputs,
            &mut constants,
        );
        constants
    }
}

/// A declared size stands for a concrete one: it is `Concrete(v)` with `v`
/// the concrete size, or, when `cut`, with `v` the concrete size cut to 32 bits.
pub open spec fn sizes_agree(d: Constant, n: usize, cut: bool) -> bool {
    match d {
        Constant::Concrete(v) => if cut {
            v == n as u32
        } else {
            n == v as usize
        },
        Constant::Generic(_) => false,
    }
}

/// A declared type and a concrete one have the same shape, names and sizes.
pub open spec fn corresponds(d: DeclarationType, c: ConcreteType, cut: bool) -> bool
    decreases d,
{
    match d {
        GType::FieldElement => c is FieldElement,
        GType::Boolean => c is Boolean,
        GType::Int => c is Int,
        GType::Uint(b) => c is Uint && c->Uint_0 == b,
        GType::Array(x) => c is Array && sizes_agree(x.size, c->Array_0.size, cut) && corresponds(
            *x.ty,
            *c->Array_0.ty,
            cut,
        ),
        GType::Struct(x) => c is Struct && x.module == c->Struct_0.module && x.name
            == c->Struct_0.name && x.members@.len() == c->Struct_0.members@.len() && forall|i: int|
            0 <= i < x.members@.len() ==> x.members@[i].id == c->Struct_0.members@[i].id
                && corresponds(*x.members@[i].ty, *c->Struct_0.members@[i].ty, cut),
    }
}

/// Every size in a declared type is concrete.
pub open spec fn all_concrete(d: DeclarationType) -> bool
    decreases d,
{
    match d {
        GType::Array(x) => x.size is Concrete && all_concrete(*x.ty),
        GType::Struct(x) => forall|i: int|
            0 <= i < x.members@.len() ==> all_concrete(*x.members@[i].ty),
        _ => true,
    }
}

impl GType<usize> {
    /// The concrete type of a declared one whose sizes are all concrete.
    pub fn try_from_declaration(d: &DeclarationType) -> (r: Result<ConcreteType, ()>)
        ensures
            all_concrete(*d) ==> r is Ok && corresponds(*d, r->Ok_0, false),
            !all_concrete(*d) ==> r is Err,
        decreases d,
    {
        match d {
            GType::FieldElement => Ok(GType::FieldElement),
            GType::Boolean => Ok(GType::Boolean),
            GType::Int => Ok(GType::Int),
            GType::Uint(b) => Ok(GType::Uint(*b)),
            GType::Array(x) => {
                let size = match &x.size {
                    Constant::Concrete(v) => *v as usize,
                    Constant::Generic(_) => return Err(()),
                };
                match Self::try_from_declaration(&x.ty) {
                    Ok(ty) => Ok(GType::Array(GArrayType::new(ty, size))),
                    Err(e) => Err(e),
                }
            },
            GType::Struct(x) => {
                let mut members: Vec<ConcreteStructMember> = Vec::new();
                let mut i: usize = 0;
                while i < x.members.len()
                    invariant
                        *d == GType::<Constant>::Struct(*x),
                        i <= x.members@.len(),
                        members@.len() == i,
                        forall|j: int| 0 <= j < i ==> all_concrete(*x.members@[j].ty),
                        forall|j: int|
                            0 <= j < i ==> x.members@[j].id == #[trigger] members@[j].id
                                && corresponds(*x.members@[j].ty, *members@[j].ty, false),
                    decreases x.members@.len() - i,
                {
                    proof {
                        assert(decreases_to!(*d => d->Struct_0));
                        assert(decreases_to!(d->Struct_0 => d->Struct_0.members));
                        assert(decreases_to!(x.members => x.members@));
                        assert(decreases_to!(x.members@ => x.members@[i as int]));
                        assert(decreases_to!(x.members@[i as int] => x.members@[i as int].ty));
                        assert(decreases_to!(*d => x.members@[i as int].ty));
                    }
                    match Self::try_from_declaration(&x.members[i].ty) {
                        Ok(ty) => {
                            members.push(GStructMember::new(x.members[i].id.clone(), ty));
                        },
                        Err(e) => {
                            assert(!all_concrete(*d));
                            return Err(e);
                        },
                    }
                    i = i + 1;
                }
                let r = GType::Struct(GStructType::new(x.module.clone(), x.name.clone(), members));
                assert forall|j: int| 0 <= j < x.members@.len() implies x.members@[j].id
                    == r->Struct_0.members@[j].id && corresponds(
                    *x.members@[j].ty,
                    *r->Struct_0.members@[j].ty,
                    false,
                ) by {
                    assert(members@[j].id == x.members@[j].id);
                }
                assert(corresponds(*d, r, false));
                Ok(r)
            },
        }
    }
}

impl GType<Constant> {
    /// The declared type of a concrete one, each size cut to 32 bits.
    pub fn from_concrete(c: &ConcreteType) -> (r: DeclarationType)
        ensures
            corresponds(r, *c, true),
            all_concrete(r),
        decreases c,
    {
        match c {
            GType::FieldElement => GType::FieldElement,
            GType::Boolean => GType::Boolean,
            GType::Int => GType::Int,
            GType::Uint(b) => GType::Uint(*b),
            GType::Array(x) => GType::Array(
                GArrayType::new(Self::from_concrete(&x.ty), Constant::Concrete(#[verifier::truncate] (x.size as u32))),
            ),
            GType::Struct(x) => {
                let mut members: Vec<DeclarationStructMember> = Vec::new();
                let mut i: usize = 0;
                while i < x.members.len()
                    invariant
                        *c == GType::<usize>::Struct(*x),
                        i <= x.members@.len(),
                        members@.len() == i,
                        forall|j: int|
                            0 <= j < i ==> #[trigger] members@[j].id == x.members@[j].id
                                && corresponds(*members@[j].ty, *x.members@[j].ty, true)
                                && all_concrete(*members@[j].ty),
                    decreases x.members@.len() - i,
                {
                    proof {
                        assert(decreases_to!(*c => c->Struct_0));
                        assert(decreases_to!(c->Struct_0 => c->Struct_0.members));
                        assert(decreases_to!(x.members => x.members@));
                        assert(decreases_to!(x.members@ => x.members@[i as int]));
                        assert(decreases_to!(x.members@[i as int] => x.members@[i as int].ty));
                        assert(decreases_to!(*c => x.members@[i as int].ty));
                    }
                    let ty = Self::from_concrete(&x.members[i].ty);
                    members.push(GStructMember::new(x.members[i].id.clone(), ty));
                    i = i + 1;
                }
                let r = GType::Struct(GStructType::new(x.module.clone(), x.name.clone(), members));
                assert forall|j: int| 0 <= j < x.members@.len() implies r->Struct_0.members@[j].id
                    == x.members@[j].id && corresponds(
                    *r->Struct_0.members@[j].ty,
                    *x.members@[j].ty,
                    true,
                ) && all_concrete(*r->Struct_0.members@[j].ty) by {
                    assert(members@[j].id == x.members@[j].id);
                }
                assert(corresponds(r, *c, true));
                r
            },
        }
    }
}

/// Two lists of types correspond place by place.
pub open spec fn lists_correspond(d: Seq<DeclarationType>, c: Seq<ConcreteType>, cut: bool) -> bool {
    d.len() == c.len() && forall|i: int| 0 <= i < d.len() ==> corresponds(#[trigger] d[i], c[i], cut)
}

/// Every size of every declared type of the list is concrete.
pub open spec fn list_all_concrete(d: Seq<DeclarationType>) -> bool {
    forall|i: int| 0 <= i < d.len() ==> all_concrete(#[trigger] d[i])
}

/// The concrete types of a list of declared ones, when all their sizes are concrete.
fn concrete_list(d: &Vec<DeclarationType>) -> (r: Result<Vec<ConcreteType>, ()>)
    ensures
        list_all_concrete(d@) ==> r is Ok && lists_correspond(d@, r->Ok_0@, false),
        !list_all_concrete(d@) ==> r is Err,
{
    let mut res: Vec<ConcreteType> = Vec::new();
    let mut i: usize = 0;
    while i < d.len()
        invariant
            i <= d@.len(),
            res@.len() == i,
            forall|j: int| 0 <= j < i ==> all_concrete(#[trigger] d@[j]),
            forall|j: int| 0 <= j < i ==> corresponds(d@[j], #[trigger] res@[j], false),
        decreases d@.len() - i,
    {
        match GType::<usize>::try_from_declaration(&d[i]) {
            Ok(t) => res.push(t),
            Err(e) => {
                assert(!all_concrete(d@[i as int]));
                return Err(e);
            },
        }
        i = i + 1;
    }
    Ok(res)
}

/// The declared types of a list of concrete ones.
fn declared_list(c: &Vec<ConcreteType>) -> (r: Vec<DeclarationType>)
    ensures
        lists_correspond(r@, c@, true),
        list_all_concrete(r@),
{
    let mut res: Vec<DeclarationType> = Vec::new();
    let mut i: usize = 0;
    while i < c.len()
        invariant
            i <= c@.len(),
            res@.len() == i,
            forall|j: int| 0 <= j < i ==> corresponds(#[trigger] res@[j], c@[j], true),
            forall|j: int| 0 <= j < i ==> all_concrete(#[trigger] res@[j]),
        decreases c@.len() - i,
    {
        res.push(GType::<Constant>::from_concrete(&c[i]));
        i = i + 1;
    }
    res
}

impl GSignature<usize> {
    /// The concrete signature of a declared one whose sizes are all concrete.
    pub fn try_from_declaration(d: &DeclarationSignature) -> (r: Result<ConcreteSignature, ()>)
        ensures
            list_all_concrete(d.inputs@) && list_all_concrete(d.outputs@) ==> r is Ok
                && lists_correspond(d.inputs@, r->Ok_0.inputs@, false) && lists_correspond(
                d.outputs@,
                r->Ok_0.outputs@,
                false,
            ),
            !(list_all_concrete(d.inputs@) && list_all_concrete(d.outputs@)) ==> r is Err,
    {
        let inputs = match concrete_list(&d.inputs) {
            Ok(v) => v,
            Err(e) => return Err(e),
        };
        let outputs = match concrete_list(&d.outputs) {
            Ok(v) => v,
            Err(e) => return Err(e),
        };
        Ok(GSignature { inputs, outputs })
    }
}

impl GSignature<Constant> {
    /// The declared signature of a concrete one, each size cut to 32 bits.
    pub fn from_concrete(c: &ConcreteSignature) -> (r: DeclarationSignature)
        ensures
            lists_correspond(r.inputs@, c.inputs@, true),
            lists_correspond(r.outputs@, c.outputs@, true),
    {
        GSignature { inputs: declared_list(&c.inputs), outputs: declared_list(&c.outputs) }
    }
}

impl GFunctionKey<usize> {
    /// The concrete key of a declared one whose sizes are all concrete.
    pub fn try_from_declaration(k: &DeclarationFunctionKey) -> (r: Result<ConcreteFunctionKey, ()>)
        ensures
            list_all_concrete(k.signature.inputs@) && list_all_concrete(k.signature.outputs@)
                ==> r is Ok && r->Ok_0.id == k.id && lists_correspond(
                k.signature.inputs@,
                r->Ok_0.signature.inputs@,
                false,
            ) && lists_correspond(k.signature.outputs@, r->Ok_0.signature.outputs@, false),
            !(list_all_concrete(k.signature.inputs@) && list_all_concrete(k.signature.outputs@))
                ==> r is Err,
    {
        match GSignature::<usize>::try_from_declaration(&k.signature) {
            Ok(signature) => Ok(GFunctionKey { id: k.id.clone(), signature }),
            Err(e) => Err(e),
        }
    }
}

impl GFunctionKey<Constant> {
    /// The declared key of a concrete one, each size cut to 32 bits.
    pub fn from_concrete(k: &ConcreteFunctionKey) -> (r: DeclarationFunctionKey)
        ensures
            r.id == k.id,
            lists_correspond(r.signature.inputs@, k.signature.inputs@, true),
            lists_correspond(r.signature.outputs@, k.signature.outputs@, true),
    {
        GFunctionKey { id: k.id.clone(), signature: GSignature::<Constant>::from_concrete(&k.signature) }
    }
}

/// The concrete signature of a declared one whose sizes are all concrete.
pub fn try_from_g_signature(t: DeclarationSignature) -> (r: Result<ConcreteSignature, ()>)
    ensures
        list_all_concrete(t.inputs@) && list_all_concrete(t.outputs@) ==> r is Ok
            && lists_correspond(t.inputs@, r->Ok_0.inputs@, false) && lists_correspond(
            t.outputs@,
            r->Ok_0.outputs@,
            false,
        ),
        !(list_all_concrete(t.inputs@) && list_all_concrete(t.outputs@)) ==> r is Err,
{
    GSignature::<usize>::try_from_declaration(&t)
}

} // verus!
