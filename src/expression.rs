//! Expressions: the logical connectives, variables and opaque functions.
use vstd::prelude::*;
use crate::small::{small_clone, small_items, small_to_vec, small_from_vec, Inline};

verus! {

/// The type of a wire.
#[derive(Debug, Clone, Copy, PartialEq, Eq, Structural, PartialOrd, Ord, Hash)]
pub enum Type {
    TruthValue,
    RealNumber,
}

impl Default for Type {
    fn default() -> (r: Type)
        ensures
            r == Type::TruthValue,
    {
        Type::TruthValue
    }
}

/// A named variable of a declared type.
#[derive(Debug, Hash)]
pub struct Var(pub String, pub Type);

impl Clone for Var {
    fn clone(&self) -> (r: Var)
        ensures
            r == *self,
    {
        Var(self.0.clone(), self.1)
    }
}

impl PartialEq for Var {
    fn eq(&self, o: &Var) -> (r: bool)
        ensures
            r == (self.0@ == o.0@ && self.1 == o.1),
    {
        self.0 == o.0 && self.1 == o.1
    }
}

impl vstd::std_specs::cmp::PartialEqSpecImpl for Var {
    open spec fn obeys_eq_spec() -> bool {
        true
    }

    open spec fn eq_spec(&self, o: &Var) -> bool {
        self.0@ == o.0@ && self.1 == o.1
    }
}

impl Eq for Var {
}

impl Default for Var {
    fn default() -> (r: Var)
        ensures
            r.0@.len() == 0,
            r.1 == Type::TruthValue,
    {
        Var(String::new(), Type::TruthValue)
    }
}

/// One expression node; its inputs are identifiers of other nodes.
pub enum Expression {
    And(Inline),
    Or(Inline),
    Implies([usize; 2]),
    Equal([usize; 2]),
    Variable(Var),
    Function(String, Type, Inline),
}

/// What an expression is, with its inputs as a sequence.
pub enum ExprView {
    And(Seq<usize>),
    Or(Seq<usize>),
    Implies(usize, usize),
    Equal(usize, usize),
    Variable(Seq<char>, Type),
    Function(Seq<char>, Type, Seq<usize>),
}

impl ExprView {
    pub open spec fn inputs(self) -> Seq<usize> {
        match self {
            ExprView::And(v) => v,
            ExprView::Or(v) => v,
            ExprView::Implies(a, b) => seq![a, b],
            ExprView::Equal(a, b) => seq![a, b],
            ExprView::Variable(_, _) => Seq::empty(),
            ExprView::Function(_, _, v) => v,
        }
    }

    /// The type of the value an expression denotes.
    pub open spec fn ty(self) -> Type {
        match self {
            ExprView::Variable(_, t) => t,
            ExprView::Function(_, t, _) => t,
            _ => Type::TruthValue,
        }
    }

    /// Whether the inputs have the types the connective asks for, given the
    /// type of each node.
    pub open spec fn tycheck(self, types: Seq<Type>) -> bool {
        match self {
            ExprView::And(v) => forall|k: int| 0 <= k < v.len() ==> types[v[k] as int] == Type::TruthValue,
            ExprView::Or(v) => forall|k: int| 0 <= k < v.len() ==> types[v[k] as int] == Type::TruthValue,
            ExprView::Implies(a, b) => types[a as int] == Type::TruthValue && types[b as int]
                == Type::TruthValue,
            ExprView::Equal(a, b) => types[a as int] == types[b as int],
            _ => true,
        }
    }

    /// The same expression with each input `i` replaced by `table[i]`.
    pub open spec fn map_inputs(self, table: Seq<usize>) -> ExprView {
        let f = |v: Seq<usize>| v.map_values(|i: usize| table[i as int]);
        match self {
            ExprView::And(v) => ExprView::And(f(v)),
            ExprView::Or(v) => ExprView::Or(f(v)),
            ExprView::Implies(a, b) => ExprView::Implies(table[a as int], table[b as int]),
            ExprView::Equal(a, b) => ExprView::Equal(table[a as int], table[b as int]),
            ExprView::Variable(x, t) => ExprView::Variable(x, t),
            ExprView::Function(name, t, v) => ExprView::Function(name, t, f(v)),
        }
    }

    /// The glyph of a connective, or the name of a variable or function.
    pub open spec fn text(self) -> Seq<char> {
        match self {
            ExprView::And(_) => "∧"@,
            ExprView::Or(_) => "∨"@,
            ExprView::Implies(_, _) => "⇒"@,
            ExprView::Equal(_, _) => "="@,
            ExprView::Variable(x, _) => x,
            ExprView::Function(name, _, _) => name,
        }
    }
}

impl Expression {
    pub open spec fn view(&self) -> ExprView {
        match self {
            Expression::And(v) => ExprView::And(small_items(*v)),
            Expression::Or(v) => ExprView::Or(small_items(*v)),
            Expression::Implies(a) => ExprView::Implies(a[0], a[1]),
            Expression::Equal(a) => ExprView::Equal(a[0], a[1]),
            Expression::Variable(x) => ExprView::Variable(x.0@, x.1),
            Expression::Function(name, t, v) => ExprView::Function(name@, *t, small_items(*v)),
        }
    }

    /// The conjunction of `inputs`.
    pub fn and(inputs: Vec<usize>) -> (r: Expression)
        ensures
            r@ == ExprView::And(inputs@),
    {
        Expression::And(small_from_vec(inputs))
    }

    /// The disjunction of `inputs`.
    pub fn or(inputs: Vec<usize>) -> (r: Expression)
        ensures
            r@ == ExprView::Or(inputs@),
    {
        Expression::Or(small_from_vec(inputs))
    }

    /// Function `name`, of result type `ty`, applied to `inputs`.
    pub fn function(name: String, ty: Type, inputs: Vec<usize>) -> (r: Expression)
        ensures
            r@ == ExprView::Function(name@, ty, inputs@),
    {
        Expression::Function(name, ty, small_from_vec(inputs))
    }

    /// The glyph of a connective, or the name of a variable or function.
    pub fn text(&self) -> (r: &str)
        ensures
            r@ == self@.text(),
    {
        match self {
            Expression::And(_) => "∧",
            Expression::Or(_) => "∨",
            Expression::Implies(_) => "⇒",
            Expression::Equal(_) => "=",
            Expression::Variable(x) => x.0.as_str(),
            Expression::Function(name, _, _) => name.as_str(),
        }
    }

    pub fn ty(&self) -> (r: Type)
        ensures
            r == self@.ty(),
    {
        match self {
            Expression::Variable(x) => x.1,
            Expression::Function(_, t, _) => *t,
            _ => Type::TruthValue,
        }
    }

    /// The inputs, in order.
    pub fn inputs(&self) -> (r: Vec<usize>)
        ensures
            r@ == self@.inputs(),
    {
        match self {
            Expression::And(v) => small_to_vec(v),
            Expression::Or(v) => small_to_vec(v),
            Expression::Implies(a) => {
                let r = vec![a[0], a[1]];
                assert(r@ =~= seq![a[0], a[1]]);
                r
            },
            Expression::Equal(a) => {
                let r = vec![a[0], a[1]];
                assert(r@ =~= seq![a[0], a[1]]);
                r
            },
            Expression::Variable(_) => {
                let r = Vec::new();
                assert(r@ =~= Seq::<usize>::empty());
                r
            },
            Expression::Function(_, _, v) => small_to_vec(v),
        }
    }

    /// Whether the inputs have the types the connective asks for; `types`
    /// holds the type of each node.
    pub fn tycheck(&self, types: &Vec<Type>) -> (r: bool)
        requires
            forall|k: int| 0 <= k < self@.inputs().len() ==> #[trigger] self@.inputs()[k] < types@.len(),
        ensures
            r == self@.tycheck(types@),
    {
        match self {
            Expression::And(v) => {
                let items = small_to_vec(v);
                assert(items@ == self@.inputs());
                all_truth_values(&items, types)
            },
            Expression::Or(v) => {
                let items = small_to_vec(v);
                assert(items@ == self@.inputs());
                all_truth_values(&items, types)
            },
            Expression::Implies(a) => {
                assert(self@.inputs()[0] == a[0] && self@.inputs()[1] == a[1]);
                types[a[0]] == Type::TruthValue && types[a[1]] == Type::TruthValue
            },
            Expression::Equal(a) => {
                assert(self@.inputs()[0] == a[0] && self@.inputs()[1] == a[1]);
                types[a[0]] == types[a[1]]
            },
            Expression::Variable(_) => true,
            Expression::Function(_, _, _) => true,
        }
    }

    /// The same expression with each input `i` replaced by `table[i]`.
    pub fn map(&self, table: &Vec<usize>) -> (r: Expression)
        requires
            forall|k: int| 0 <= k < self@.inputs().len() ==> #[trigger] self@.inputs()[k] < table@.len(),
        ensures
            r@ == self@.map_inputs(table@),
    {
        match self {
            Expression::And(v) => {
                assert(self@.inputs() == small_items(*v));
                Expression::And(map_list(v, table))
            },
            Expression::Or(v) => {
                assert(self@.inputs() == small_items(*v));
                Expression::Or(map_list(v, table))
            },
            Expression::Implies(a) => {
                assert(self@.inputs()[0] == a[0] && self@.inputs()[1] == a[1]);
                Expression::Implies([table[a[0]], table[a[1]]])
            },
            Expression::Equal(a) => {
                assert(self@.inputs()[0] == a[0] && self@.inputs()[1] == a[1]);
                Expression::Equal([table[a[0]], table[a[1]]])
            },
            Expression::Variable(x) => Expression::Variable(x.clone()),
            Expression::Function(name, t, v) => {
                assert(self@.inputs() == small_items(*v));
                Expression::Function(name.clone(), *t, map_list(v, table))
            },
        }
    }
}

fn all_truth_values(items: &Vec<usize>, types: &Vec<Type>) -> (r: bool)
    requires
        forall|j: int| 0 <= j < items@.len() ==> #[trigger] items@[j] < types@.len(),
    ensures
        r == forall|j: int| 0 <= j < items@.len() ==> types@[#[trigger] items@[j] as int] == Type::TruthValue,
{
    let mut k: usize = 0;
    while k < items.len()
        invariant
            forall|j: int| 0 <= j < items@.len() ==> #[trigger] items@[j] < types@.len(),
            k <= items@.len(),
            forall|j: int| 0 <= j < k ==> types@[#[trigger] items@[j] as int] == Type::TruthValue,
        decreases items@.len() - k,
    {
        if types[items[k]] != Type::TruthValue {
            return false;
        }
        k = k + 1;
    }
    true
}

fn map_list(v: &Inline, table: &Vec<usize>) -> (r: Inline)
    requires
        forall|k: int| 0 <= k < small_items(*v).len() ==> #[trigger] small_items(*v)[k] < table@.len(),
    ensures
        small_items(r) == small_items(*v).map_values(|i: usize| table@[i as int]),
{
    let items = small_to_vec(v);
    let mut out: Vec<usize> = Vec::new();
    let mut k: usize = 0;
    while k < items.len()
        invariant
            items@ == small_items(*v),
            forall|j: int| 0 <= j < items@.len() ==> #[trigger] items@[j] < table@.len(),
            k <= items@.len(),
            out@ == items@.take(k as int).map_values(|i: usize| table@[i as int]),
        decreases items@.len() - k,
    {
        out.push(table[items[k]]);
        k = k + 1;
        assert(out@ =~= items@.take(k as int).map_values(|i: usize| table@[i as int]));
    }
    assert(items@.take(k as int) =~= items@);
    small_from_vec(out)
}

impl Clone for Expression {
    fn clone(&self) -> (r: Expression)
        ensures
            r@ == self@,
    {
        match self {
            Expression::And(v) => Expression::And(small_clone(v)),
            Expression::Or(v) => Expression::Or(small_clone(v)),
            Expression::Implies(a) => Expression::Implies([a[0], a[1]]),
            Expression::Equal(a) => Expression::Equal([a[0], a[1]]),
            Expression::Variable(x) => Expression::Variable(x.clone()),
            Expression::Function(name, t, v) => Expression::Function(name.clone(), *t, small_clone(v)),
        }
    }
}

} // verus!
