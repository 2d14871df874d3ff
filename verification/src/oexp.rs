use vstd::prelude::*;
use crate::numeral::{is_float_literal, float_literal};
use crate::text::chars_of;

verus! {

/// The native functions that the core model binds.
#[derive(PartialEq, Eq, Structural, Clone, Copy, Debug)]
pub enum Builtin {
    /// `+`: the sum of its numeric arguments.
    Add,
    /// `*`: the product of its numeric arguments.
    Mul,
}

/// A number, held exactly as the program produced it: a numeric literal as it
/// was read, or the sum or product of numbers, to be folded left to right
/// (from `0` and `1` respectively) in double precision.
#[derive(Debug)]
pub enum Num {
    Lit(String),
    Sum(Vec<Num>),
    Product(Vec<Num>),
}

/// The mathematical value of a `Num`.
pub enum NumV {
    Lit(Seq<char>),
    Sum(Seq<NumV>),
    Product(Seq<NumV>),
}

impl Num {
    pub open spec fn view(&self) -> NumV
        decreases self,
    {
        match self {
            Num::Lit(s) => NumV::Lit(s@),
            Num::Sum(v) => {
                proof { broadcast use vstd::std_specs::vec::axiom_vec_decreases_to_view; }
                NumV::Sum(Num::views_of(v@))
            },
            Num::Product(v) => {
                proof { broadcast use vstd::std_specs::vec::axiom_vec_decreases_to_view; }
                NumV::Product(Num::views_of(v@))
            },
        }
    }

    pub open spec fn views_of(s: Seq<Num>) -> Seq<NumV>
        decreases s,
    {
        if s.len() == 0 {
            seq![]
        } else {
            Num::views_of(s.drop_last()).push(s.last().view())
        }
    }
}


impl Num {
    /// A copy of this number.
    pub fn copy(&self) -> (r: Num)
        ensures
            r@ == self@,
        decreases self, 1nat,
    {
        match self {
            Num::Lit(s) => Num::Lit(s.clone()),
            Num::Sum(v) => {
                proof { broadcast use vstd::std_specs::vec::axiom_vec_decreases_to_view; }
                Num::Sum(Num::copy_all(v))
            },
            Num::Product(v) => {
                proof { broadcast use vstd::std_specs::vec::axiom_vec_decreases_to_view; }
                Num::Product(Num::copy_all(v))
            },
        }
    }

    /// A copy of a list of numbers.
    pub fn copy_all(v: &Vec<Num>) -> (r: Vec<Num>)
        ensures
            Num::views_of(r@) == Num::views_of(v@),
        decreases v@, 0nat,
    {
        let mut r: Vec<Num> = Vec::new();
        let mut i: usize = 0;
        while i < v.len()
            invariant
                i <= v.len(),
                Num::views_of(r@) == Num::views_of(v@.take(i as int)),
            decreases v.len() - i,
        {
            assert(decreases_to!(v@ => v@[i as int]));
            let x = v[i].copy();
            let ghost before = r@;
            r.push(x);
            assert(r@.drop_last() == before);
            assert(v@.take(i as int + 1).drop_last() == v@.take(i as int));
            i = i + 1;
        }
        assert(v@.take(v.len() as int) == v@);
        r
    }
}

impl Clone for Num {
    fn clone(&self) -> (r: Num)
        ensures
            r@ == self@,
    {
        self.copy()
    }
}


/// An expression of the language, and also the value that evaluating one gives.
#[derive(Debug)]
pub enum Oexp {
    Boolean(bool),
    Symbol(String),
    Number(Num),
    List(Vec<Oexp>),
    /// A native function of the model.
    Function(Builtin),
    /// A function defined in the language.
    FunctionDef(Lambda),
}

/// A function defined in the language: its parameter form and its body.
#[derive(Debug)]
pub struct Lambda {
    params_exp: Box<Oexp>,
    body_exp: Box<Oexp>,
}

/// The mathematical value of an `Oexp`.
pub enum OexpV {
    Boolean(bool),
    Symbol(Seq<char>),
    Number(NumV),
    List(Seq<OexpV>),
    Function(Builtin),
    /// Parameter form and body.
    FunctionDef(Box<OexpV>, Box<OexpV>),
}

impl Oexp {
    pub open spec fn view(&self) -> OexpV
        decreases self, 1nat,
    {
        match self {
            Oexp::Boolean(b) => OexpV::Boolean(*b),
            Oexp::Symbol(s) => OexpV::Symbol(s@),
            Oexp::Number(n) => OexpV::Number(n@),
            Oexp::List(v) => {
                proof { broadcast use vstd::std_specs::vec::axiom_vec_decreases_to_view; }
                OexpV::List(Oexp::views_of(v@))
            },
            Oexp::Function(f) => OexpV::Function(*f),
            Oexp::FunctionDef(l) => OexpV::FunctionDef(
                Box::new(l.params_view()),
                Box::new(l.body_view()),
            ),
        }
    }

    pub open spec fn views_of(s: Seq<Oexp>) -> Seq<OexpV>
        decreases s, 0nat,
    {
        if s.len() == 0 {
            seq![]
        } else {
            Oexp::views_of(s.drop_last()).push(s.last().view())
        }
    }

    /// A copy of this expression.
    pub fn copy(&self) -> (r: Oexp)
        ensures
            r@ == self@,
        decreases self, 2nat,
    {
        match self {
            Oexp::Boolean(b) => Oexp::Boolean(*b),
            Oexp::Symbol(s) => Oexp::Symbol(s.clone()),
            Oexp::Number(n) => Oexp::Number(n.copy()),
            Oexp::List(v) => {
                proof { broadcast use vstd::std_specs::vec::axiom_vec_decreases_to_view; }
                Oexp::List(Oexp::copy_all(v))
            },
            Oexp::Function(f) => Oexp::Function(*f),
            Oexp::FunctionDef(l) => Oexp::FunctionDef(l.copy()),
        }
    }

    /// A copy of a list of expressions.
    pub fn copy_all(v: &Vec<Oexp>) -> (r: Vec<Oexp>)
        ensures
            Oexp::views_of(r@) == Oexp::views_of(v@),
        decreases v@, 0nat,
    {
        let mut r: Vec<Oexp> = Vec::new();
        let mut i: usize = 0;
        while i < v.len()
            invariant
                i <= v.len(),
                Oexp::views_of(r@) == Oexp::views_of(v@.take(i as int)),
            decreases v.len() - i,
        {
            assert(decreases_to!(v@ => v@[i as int]));
            let x = v[i].copy();
            let ghost before = r@;
            r.push(x);
            assert(r@.drop_last() == before);
            assert(v@.take(i as int + 1).drop_last() == v@.take(i as int));
            i = i + 1;
        }
        assert(v@.take(v.len() as int) == v@);
        r
    }
}

impl Lambda {
    pub closed spec fn params_view(&self) -> OexpV
        decreases self, 0nat,
    {
        self.params_exp@
    }

    pub closed spec fn body_view(&self) -> OexpV
        decreases self, 0nat,
    {
        self.body_exp@
    }

    pub(crate) fn new(params: Oexp, body: Oexp) -> (l: Lambda)
        ensures
            l.params_view() == params@,
            l.body_view() == body@,
    {
        Lambda { params_exp: Box::new(params), body_exp: Box::new(body) }
    }

    /// The parameter form.
    pub(crate) fn params(&self) -> (r: &Oexp)
        ensures
            r@ == self.params_view(),
    {
        &self.params_exp
    }

    /// The body.
    pub(crate) fn body(&self) -> (r: &Oexp)
        ensures
            r@ == self.body_view(),
    {
        &self.body_exp
    }

    /// A copy of this function.
    pub fn copy(&self) -> (r: Lambda)
        ensures
            r.params_view() == self.params_view(),
            r.body_view() == self.body_view(),
        decreases self, 1nat,
    {
        Lambda { params_exp: Box::new(self.params_exp.copy()), body_exp: Box::new(self.body_exp.copy()) }
    }
}

impl Clone for Oexp {
    fn clone(&self) -> (r: Oexp)
        ensures
            r@ == self@,
    {
        self.copy()
    }
}

impl Clone for Lambda {
    fn clone(&self) -> (r: Lambda)
        ensures
            r.params_view() == self.params_view(),
            r.body_view() == self.body_view(),
    {
        self.copy()
    }
}


/// The views of a list of expressions are its elements' views, in order.
pub proof fn lemma_views_of(s: Seq<Oexp>)
    ensures
        Oexp::views_of(s).len() == s.len(),
        forall|i: int| 0 <= i < s.len() ==> #[trigger] Oexp::views_of(s)[i] == s[i]@,
    decreases s.len(),
{
    if s.len() > 0 {
        lemma_views_of(s.drop_last());
    }
}



/// Every literal in the number is text that `f64::from_str` accepts.
pub open spec fn num_wf(n: NumV) -> bool
    decreases n, 1nat,
{
    match n {
        NumV::Lit(t) => is_float_literal(t),
        NumV::Sum(s) => nums_wf(s),
        NumV::Product(s) => nums_wf(s),
    }
}

pub open spec fn nums_wf(s: Seq<NumV>) -> bool
    decreases s, 0nat,
{
    if s.len() == 0 {
        true
    } else {
        nums_wf(s.drop_last()) && num_wf(s.last())
    }
}

/// Every number in the expression is well formed (see `num_wf`).
pub open spec fn oexp_wf(e: OexpV) -> bool
    decreases e, 1nat,
{
    match e {
        OexpV::Number(n) => num_wf(n),
        OexpV::List(l) => oexps_wf(l),
        OexpV::FunctionDef(p, b) => oexp_wf(*p) && oexp_wf(*b),
        _ => true,
    }
}

pub open spec fn oexps_wf(s: Seq<OexpV>) -> bool
    decreases s, 0nat,
{
    if s.len() == 0 {
        true
    } else {
        oexps_wf(s.drop_last()) && oexp_wf(s.last())
    }
}

impl Num {
    /// The number written `text`, where `f64::from_str` accepts it.
    pub fn literal(text: String) -> (r: Option<Num>)
        ensures
            r is Some <==> is_float_literal(text@),
            r matches Some(n) ==> n@ == NumV::Lit(text@) && num_wf(n@),
    {
        if float_literal(&chars_of(text.as_str())) {
            Some(Num::Lit(text))
        } else {
            None
        }
    }
}

}
