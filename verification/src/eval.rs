use vstd::prelude::*;
use crate::text::{str_eq, decimal_string};
use crate::oexp::{Oexp, OexpV, Num, NumV, Builtin, Lambda, lemma_views_of};
use crate::error::{RomeError, ErrV};
use crate::model::{Model, entry_views};
use crate::reader::views_of_strings;
use crate::semantics::{
    NumOrder, Form, Outcome, builtin_form, apply_builtin, verb_holds, is_comparison_verb,
    param_names, bind_params, arity_message, sem_eval, sem_forms, sem_list, sem_query,
    sem_if, sem_define, sem_fn_def, sem_call, finishes,
};
use crate::laws::lemma_eval_fuel;

verus! {

/// `order` may answer `r` for some two numbers with the values `a` and `b`.
pub open spec fn answers<F: Fn(&Num, &Num) -> NumOrder>(order: F, a: NumV, b: NumV, r: NumOrder) -> bool {
    exists|x: Num, y: Num|
        #![trigger call_ensures(order, (&x, &y), r)]
        x@ == a && y@ == b && call_ensures(order, (&x, &y), r)
}

/// The order that the comparison `order` gives two numbers: what it answers
/// for numbers with those values.
pub open spec fn order_of<F: Fn(&Num, &Num) -> NumOrder>(order: F) -> spec_fn(NumV, NumV) -> NumOrder {
    |a: NumV, b: NumV| choose|r: NumOrder| #[trigger] answers(order, a, b, r)
}

/// `order` can be called on any two numbers, and answers alike for numbers
/// with the same values.
pub open spec fn is_order<F: Fn(&Num, &Num) -> NumOrder>(order: F) -> bool {
    &&& forall|x: &Num, y: &Num| #[trigger] call_requires(order, (x, y))
    &&& forall|x1: &Num, y1: &Num, x2: &Num, y2: &Num, r1: NumOrder, r2: NumOrder|
        #![trigger call_ensures(order, (x1, y1), r1), call_ensures(order, (x2, y2), r2)]
        x1@ == x2@ && y1@ == y2@ && call_ensures(order, (x1, y1), r1) && call_ensures(
            order,
            (x2, y2),
            r2,
        ) ==> r1 == r2
}

proof fn lemma_order_answer<F: Fn(&Num, &Num) -> NumOrder>(order: F, a: &Num, b: &Num, r: NumOrder)
    requires
        is_order(order),
        call_ensures(order, (a, b), r),
    ensures
        (order_of(order))(a@, b@) == r,
{
    let x0: Num = *a;
    let y0: Num = *b;
    assert(call_ensures(order, (&x0, &y0), r));
    assert(answers(order, a@, b@, r));
    let r2 = (order_of(order))(a@, b@);
    let (x2, y2): (Num, Num) = choose|x: Num, y: Num|
        #![trigger call_ensures(order, (&x, &y), r2)]
        x@ == a@ && y@ == b@ && call_ensures(order, (&x, &y), r2);
    assert(call_ensures(order, (&x2, &y2), r2));
}

pub open spec fn res_view(r: Result<Oexp, RomeError>) -> Result<OexpV, ErrV> {
    match r {
        Ok(e) => Ok(e@),
        Err(e) => Err(e@),
    }
}

pub open spec fn res_views(r: Result<Vec<Oexp>, RomeError>) -> Result<Seq<OexpV>, ErrV> {
    match r {
        Ok(v) => Ok(Oexp::views_of(v@)),
        Err(e) => Err(e@),
    }
}

fn builtin_form_of(e: &Oexp) -> (r: Option<Form>)
    ensures
        r == builtin_form(e@),
{
    match e {
        Oexp::Symbol(s) => if str_eq(s.as_str(), "?") {
            Some(Form::Query)
        } else if str_eq(s.as_str(), ".") {
            Some(Form::Define)
        } else if str_eq(s.as_str(), "fn") {
            Some(Form::FnDef)
        } else if str_eq(s.as_str(), "!") {
            Some(Form::Subject)
        } else {
            None
        },
        _ => None,
    }
}

fn comparison_verb(v: &String) -> (r: bool)
    ensures
        r == is_comparison_verb(v@),
{
    str_eq(v.as_str(), ">") || str_eq(v.as_str(), "<") || str_eq(v.as_str(), "=") || str_eq(
        v.as_str(),
        "==",
    ) || str_eq(v.as_str(), ">=") || str_eq(v.as_str(), "=<") || str_eq(v.as_str(), "~=")
        || str_eq(v.as_str(), "!=")
}

fn holds(v: &String, o: NumOrder) -> (r: bool)
    ensures
        r == verb_holds(v@, o),
{
    if str_eq(v.as_str(), ">") {
        o == NumOrder::Greater
    } else if str_eq(v.as_str(), "<") {
        o == NumOrder::Less
    } else if str_eq(v.as_str(), "=") || str_eq(v.as_str(), "==") {
        o == NumOrder::Equal
    } else if str_eq(v.as_str(), ">=") {
        o == NumOrder::Greater || o == NumOrder::Equal
    } else if str_eq(v.as_str(), "=<") {
        o == NumOrder::Less || o == NumOrder::Equal
    } else {
        o != NumOrder::Equal
    }
}

/// Applies a native function to evaluated arguments: all must be numbers.
fn apply_builtin_to(b: Builtin, args: &Vec<Oexp>) -> (r: Result<Oexp, RomeError>)
    ensures
        res_view(r) == apply_builtin(b, Oexp::views_of(args@)),
{
    let ghost av = Oexp::views_of(args@);
    proof { lemma_views_of(args@); }
    let mut nums: Vec<Num> = Vec::new();
    let mut i: usize = 0;
    while i < args.len()
        invariant
            i <= args.len(),
            av == Oexp::views_of(args@),
            av.len() == args@.len(),
            forall|j: int| 0 <= j < args@.len() ==> #[trigger] av[j] == args@[j]@,
            forall|j: int| 0 <= j < i ==> (#[trigger] av[j]) is Number,
            Num::views_of(nums@) == av.take(i as int).map_values(|a: OexpV| crate::semantics::num_of(a)),
        decreases args.len() - i,
    {
        match &args[i] {
            Oexp::Number(n) => {
                let ghost before = nums@;
                nums.push(n.copy());
                assert(nums@.drop_last() == before);
                assert(av.take(i as int + 1).map_values(|a: OexpV| crate::semantics::num_of(a))
                    =~= av.take(i as int).map_values(|a: OexpV| crate::semantics::num_of(a)).push(
                    n@,
                ));
            },
            _ => {
                assert(!(av[i as int] is Number));
                return Err(RomeError::reader("expected a number"));
            },
        }
        i = i + 1;
    }
    assert(av.take(i as int) == av);
    match b {
        Builtin::Add => Ok(Oexp::Number(Num::Sum(nums))),
        Builtin::Mul => Ok(Oexp::Number(Num::Product(nums))),
    }
}


/// The names of the parameters of a function, from its parameter form.
fn parse_list_of_symbol_strings(form: &Oexp) -> (r: Result<Vec<String>, RomeError>)
    ensures
        match r {
            Ok(ks) => param_names(form@) == Ok::<Seq<Seq<char>>, ErrV>(views_of_strings(ks@)),
            Err(e) => param_names(form@) == Err::<Seq<Seq<char>>, ErrV>(e@),
        },
{
    match form {
        Oexp::List(l) => {
            let ghost lv = Oexp::views_of(l@);
            proof { lemma_views_of(l@); }
            let mut ks: Vec<String> = Vec::new();
            let mut i: usize = 0;
            assert(form@ == OexpV::List(lv));
            while i < l.len()
                invariant
                    i <= l.len(),
                    form@ == OexpV::List(lv),
                    lv == Oexp::views_of(l@),
                    lv.len() == l@.len(),
                    forall|j: int| 0 <= j < l@.len() ==> #[trigger] lv[j] == l@[j]@,
                    forall|j: int| 0 <= j < i ==> (#[trigger] lv[j]) is Symbol,
                    views_of_strings(ks@) == lv.take(i as int).map_values(|x: OexpV| x->Symbol_0),
                decreases l.len() - i,
            {
                match &l[i] {
                    Oexp::Symbol(s) => {
                        let ghost before = ks@;
                        ks.push(s.clone());
                        assert(ks@.drop_last() == before);
                        assert(views_of_strings(ks@) =~= views_of_strings(before).push(s@));
                        assert(lv.take(i as int + 1).map_values(|x: OexpV| x->Symbol_0)
                            =~= lv.take(i as int).map_values(|x: OexpV| x->Symbol_0).push(s@));
                    },
                    _ => {
                        assert(!(lv[i as int] is Symbol));
                        assert(form@ == OexpV::List(lv));
                        assert(!(forall|j: int| 0 <= j < lv.len() ==> (#[trigger] lv[j]) is Symbol));
                        return Err(RomeError::reader("Expected symbols in the argument list"));
                    },
                }
                i = i + 1;
            }
            assert(lv.take(i as int) == lv);
            Ok(ks)
        },
        Oexp::Symbol(a) => {
            let mut ks: Vec<String> = Vec::new();
            ks.push(a.clone());
            assert(views_of_strings(ks@) =~= seq![a@]);
            Ok(ks)
        },
        _ => Err(RomeError::reader("Expected arg form to be a list")),
    }
}

/// The bindings of the names `ks` to the values `vs`, in order.
fn pair_up(ks: &Vec<String>, vs: &Vec<Oexp>) -> (r: Vec<(String, Oexp)>)
    requires
        ks.len() == vs.len(),
    ensures
        bindings_of(r@) == bind_params(views_of_strings(ks@), Oexp::views_of(vs@)),
{
    let ghost kv = views_of_strings(ks@);
    let ghost vv = Oexp::views_of(vs@);
    proof { lemma_views_of(vs@); }
    let mut r: Vec<(String, Oexp)> = Vec::new();
    let mut i: usize = 0;
    while i < ks.len()
        invariant
            i <= ks.len(),
            ks.len() == vs.len(),
            kv == views_of_strings(ks@),
            vv == Oexp::views_of(vs@),
            vv.len() == vs@.len(),
            forall|j: int| 0 <= j < vs@.len() ==> #[trigger] vv[j] == vs@[j]@,
            r@.len() == i,
            entry_views(r@) == Seq::new(i as nat, |j: int| (kv[j], vv[j])),
        decreases ks.len() - i,
    {
        let ghost before = r@;
        let k = ks[i].clone();
        let v = vs[i].copy();
        r.push((k, v));
        assert(r@ == before.push((k, v)));
        assert(entry_views(r@)[i as int] == (kv[i as int], vv[i as int]));
        assert forall|j: int| 0 <= j < i implies #[trigger] entry_views(r@)[j] == entry_views(
            before,
        )[j] by {
            assert(r@[j] == before[j]);
        }
        assert(entry_views(r@) =~= Seq::new(i as nat + 1, |j: int| (kv[j], vv[j])));
        i = i + 1;
    }
    r
}

pub open spec fn bindings_of(v: Seq<(String, Oexp)>) -> Map<Seq<char>, OexpV> {
    crate::model::bindings_map(entry_views(v))
}

/// Evaluating forms gives one value for each form.
proof fn lemma_forms_len(
    g: nat,
    forms: Seq<OexpV>,
    acc: Seq<OexpV>,
    st: Seq<Map<Seq<char>, OexpV>>,
    ord: spec_fn(NumV, NumV) -> NumOrder,
)
    ensures
        sem_forms(g, forms, acc, st, ord) matches Outcome::Done(Ok(vs), _) ==> vs.len() == acc.len()
            + forms.len(),
    decreases forms.len(),
{
    if forms.len() > 0 {
        match sem_eval(g, forms[0], st, ord) {
            Outcome::Done(Ok(v), st1) => {
                lemma_forms_len(g, forms.drop_first(), acc.push(v), st1, ord);
            },
            _ => {},
        }
    }
}

/// The evaluator's answer `r` agrees with the outcome `o` of the semantics,
/// the scopes going from `before` to `after`: a result where the semantics
/// comes to one, and nothing where it gets stuck or runs out of depth.
pub open spec fn agrees(
    o: Outcome<OexpV>,
    r: Option<Result<Oexp, RomeError>>,
    before: Seq<Map<Seq<char>, OexpV>>,
    after: Seq<Map<Seq<char>, OexpV>>,
) -> bool {
    match r {
        Some(x) => o == Outcome::Done(res_view(x), after) && after.len() == before.len(),
        None => !(o is Done),
    }
}

/// `agrees`, for the values of a list of forms.
pub open spec fn agrees_all(
    o: Outcome<Seq<OexpV>>,
    r: Option<Result<Vec<Oexp>, RomeError>>,
    before: Seq<Map<Seq<char>, OexpV>>,
    after: Seq<Map<Seq<char>, OexpV>>,
) -> bool {
    match r {
        Some(x) => o == Outcome::Done(res_views(x), after) && after.len() == before.len(),
        None => !(o is Done),
    }
}

/// Evaluates `exp` within `depth` nested evaluations.
fn eval_in<F: Fn(&Num, &Num) -> NumOrder>(exp: &Oexp, modl: &mut Model, order: &F, depth: u64) -> (r:
    Option<Result<Oexp, RomeError>>)
    requires
        is_order(*order),
    ensures
        agrees(sem_eval(depth as nat, exp@, old(modl)@, order_of(*order)), r, old(modl)@, final(modl)@),
    decreases depth, 0nat,
{
    if depth == 0 {
        return None;
    }
    let g = depth - 1;
    match exp {
        Oexp::Symbol(k) => match modl.search(k) {
            Some(v) => Some(Ok(v)),
            None => {
                let mut msg = String::from_str("Unexpected symbok k='");
                msg.append(k.as_str());
                msg.append("'");
                Some(Err(RomeError::OperatorError(msg)))
            },
        },
        Oexp::Number(_) => Some(Ok(exp.copy())),
        Oexp::Boolean(_) => Some(Ok(exp.copy())),
        Oexp::List(l) => eval_list(l, modl, order, g),
        Oexp::Function(_) => Some(Err(RomeError::operator("I don't know this function"))),
        Oexp::FunctionDef(_) => Some(
            Err(RomeError::operator("I didn't expect this function definition here")),
        ),
    }
}

/// Evaluates the forms `l[0..n]` one after the other; the first error stops it.
fn eval_forms<F: Fn(&Num, &Num) -> NumOrder>(
    l: &Vec<Oexp>,
    n: usize,
    modl: &mut Model,
    order: &F,
    g: u64,
) -> (r: Option<Result<Vec<Oexp>, RomeError>>)
    requires
        n <= l.len(),
        is_order(*order),
    ensures
        agrees_all(
            sem_forms(g as nat, Oexp::views_of(l@).take(n as int), seq![], old(modl)@, order_of(*order)),
            r,
            old(modl)@,
            final(modl)@,
        ),
    decreases g, 1nat,
{
    let ghost ord = order_of(*order);
    let ghost forms = Oexp::views_of(l@).take(n as int);
    let ghost start = sem_forms(g as nat, forms, seq![], modl@, ord);
    proof { lemma_views_of(l@); }
    let mut vals: Vec<Oexp> = Vec::new();
    let mut i: usize = 0;
    assert(forms.skip(0) == forms);
    assert(Oexp::views_of(vals@) == Seq::<OexpV>::empty());
    while i < n
        invariant
            i <= n <= l.len(),
            is_order(*order),
            ord == order_of(*order),
            forms == Oexp::views_of(l@).take(n as int),
            Oexp::views_of(l@).len() == l@.len(),
            forall|j: int| 0 <= j < l@.len() ==> #[trigger] Oexp::views_of(l@)[j] == l@[j]@,
            start == sem_forms(g as nat, forms, seq![], old(modl)@, ord),
            start == sem_forms(g as nat, forms.skip(i as int), Oexp::views_of(vals@), modl@, ord),
            modl@.len() == old(modl)@.len(),
        decreases n - i,
    {
        let ghost rest = forms.skip(i as int);
        assert(rest[0] == l@[i as int]@);
        assert(rest.drop_first() == forms.skip(i as int + 1));
        let ghost pre = modl@;
        match eval_in(&l[i], modl, order, g) {
            Some(Ok(v)) => {
                let ghost before = vals@;
                vals.push(v);
                assert(vals@.drop_last() == before);
            },
            Some(Err(e)) => {
                assert(sem_forms(g as nat, rest, Oexp::views_of(vals@), pre, ord)
                    == Outcome::<Seq<OexpV>>::Done(Err(e@), modl@));
                return Some(Err(e));
            },
            None => {
                return None;
            },
        }
        i = i + 1;
    }
    Some(Ok(vals))
}

/// `(subject verb object ... ?)`: a comparison of two numbers, or a conditional.
fn eval_query<F: Fn(&Num, &Num) -> NumOrder>(
    l: &Vec<Oexp>,
    n: usize,
    modl: &mut Model,
    order: &F,
    g: u64,
) -> (r: Option<Result<Oexp, RomeError>>)
    requires
        n <= l.len(),
        is_order(*order),
    ensures
        agrees(
            sem_query(g as nat, Oexp::views_of(l@).take(n as int), old(modl)@, order_of(*order)),
            r,
            old(modl)@,
            final(modl)@,
        ),
    decreases g, 3nat,
{
    proof { lemma_views_of(l@); }
    let ghost args = Oexp::views_of(l@).take(n as int);
    if n < 1 {
        return Some(Err(RomeError::operator("expected a subject as first form in conditional")));
    }
    if n < 2 {
        return Some(Err(RomeError::operator("expected a verb as second form in conditional")));
    }
    if n < 3 {
        return Some(Err(RomeError::operator("expected an object as third form in conditional")));
    }
    assert(args[0] == l@[0]@ && args[1] == l@[1]@ && args[2] == l@[2]@);
    match &l[1] {
        Oexp::Symbol(v) => {
            if comparison_verb(v) {
                match (&l[0], &l[2]) {
                    (Oexp::Number(a), Oexp::Number(b)) => {
                        let o = order(a, b);
                        proof { lemma_order_answer(*order, a, b, o); }
                        Some(Ok(Oexp::Boolean(holds(v, o))))
                    },
                    _ => Some(Err(RomeError::operator("Can compare only two numbers (as of now)"))),
                }
            } else if str_eq(v.as_str(), "if") {
                eval_if_query(l, n, modl, order, g)
            } else {
                None
            }
        },
        _ => None,
    }
}

/// `(subject if object else other ?)`: the value of `subject` where `object`
/// is true, else that of `other`.
fn eval_if_query<F: Fn(&Num, &Num) -> NumOrder>(
    l: &Vec<Oexp>,
    n: usize,
    modl: &mut Model,
    order: &F,
    g: u64,
) -> (r: Option<Result<Oexp, RomeError>>)
    requires
        3 <= n <= l.len(),
        is_order(*order),
    ensures
        agrees(
            sem_if(
                g as nat,
                l@[0]@,
                l@[2]@,
                Oexp::views_of(l@).take(n as int).skip(3),
                old(modl)@,
                order_of(*order),
            ),
            r,
            old(modl)@,
            final(modl)@,
        ),
    decreases g, 2nat,
{
    proof { lemma_views_of(l@); }
    let ghost rem = Oexp::views_of(l@).take(n as int).skip(3);
    let predicate = match eval_in(&l[2], modl, order, g) {
        Some(p) => p,
        None => {
            return None;
        },
    };
    match predicate {
        Ok(Oexp::Boolean(true)) => eval_in(&l[0], modl, order, g),
        Ok(Oexp::Boolean(false)) => {
            if n < 4 {
                return Some(Err(RomeError::operator("expected else/or branch for if condition")));
            }
            assert(rem[0] == l@[3]@);
            match &l[3] {
                Oexp::Symbol(k) => {
                    if str_eq(k.as_str(), "else") {
                        if n < 5 {
                            return Some(Err(RomeError::operator("...else what?...")));
                        }
                        assert(rem[1] == l@[4]@);
                        eval_in(&l[4], modl, order, g)
                    } else if str_eq(k.as_str(), "or") {
                        None
                    } else {
                        Some(Err(RomeError::operator("Expected else or or after if condition")))
                    }
                },
                _ => Some(Err(RomeError::reader("could not read this keyword"))),
            }
        },
        Ok(_) => Some(Err(RomeError::operator("Unexpected test form"))),
        Err(e) => Some(Err(e)),
    }
}

/// `(name = object .)`: binds `name` to the value of `object` in the innermost
/// scope, and gives back the form `name`.
fn eval_define<F: Fn(&Num, &Num) -> NumOrder>(
    l: &Vec<Oexp>,
    n: usize,
    modl: &mut Model,
    order: &F,
    g: u64,
) -> (r: Option<Result<Oexp, RomeError>>)
    requires
        n <= l.len(),
        is_order(*order),
    ensures
        agrees(
            sem_define(g as nat, Oexp::views_of(l@).take(n as int), old(modl)@, order_of(*order)),
            r,
            old(modl)@,
            final(modl)@,
        ),
    decreases g, 4nat,
{
    proof { lemma_views_of(l@); }
    let ghost args = Oexp::views_of(l@).take(n as int);
    if n < 1 {
        return Some(Err(RomeError::operator("expected a subject as first form in definition")));
    }
    assert(args[0] == l@[0]@);
    let name = match &l[0] {
        Oexp::Symbol(s) => s.clone(),
        _ => {
            return Some(Err(RomeError::operator("Expected subject to be an oexp of type symbol")));
        },
    };
    if n < 2 {
        return Some(Err(RomeError::operator("expected a verb as second form in definition")));
    }
    if n < 3 {
        return Some(Err(RomeError::operator("expected an object as third form in definition")));
    }
    if n > 3 {
        return Some(
            Err(
                RomeError::operator(
                    "A definition can have only subject, verb and object. I can't handle more...",
                ),
            ),
        );
    }
    assert(args[1] == l@[1]@ && args[2] == l@[2]@);
    match &l[1] {
        Oexp::Symbol(v) => {
            if str_eq(v.as_str(), "=") {
                match eval_in(&l[2], modl, order, g) {
                    Some(Ok(val)) => {
                        modl.note_has_scope();
                        modl.define(name, val);
                        Some(Ok(l[0].copy()))
                    },
                    Some(Err(e)) => Some(Err(e)),
                    None => None,
                }
            } else {
                None
            }
        },
        _ => None,
    }
}

/// `(params => body fn)`: a function with those parameters and that body.
fn eval_function_def(l: &Vec<Oexp>, n: usize, Ghost(st): Ghost<Seq<Map<Seq<char>, OexpV>>>) -> (r:
    Option<Result<Oexp, RomeError>>)
    requires
        n <= l.len(),
    ensures
        agrees(sem_fn_def(Oexp::views_of(l@).take(n as int), st), r, st, st),
{
    proof { lemma_views_of(l@); }
    let ghost args = Oexp::views_of(l@).take(n as int);
    if n < 2 {
        return Some(Err(RomeError::operator("expected a verb as second form in conditional")));
    }
    assert(args[0] == l@[0]@ && args[1] == l@[1]@);
    match &l[1] {
        Oexp::Symbol(v) => {
            if str_eq(v.as_str(), "=>") {
                if n < 3 {
                    return Some(
                        Err(
                            RomeError::operator(
                                "expected function body as third form in function def",
                            ),
                        ),
                    );
                }
                assert(args[2] == l@[2]@);
                Some(Ok(Oexp::FunctionDef(Lambda::new(l[0].copy(), l[2].copy()))))
            } else {
                None
            }
        },
        _ => None,
    }
}

/// Calls a function defined in the language on the argument forms `l[0..n]`:
/// they are evaluated, and the body is evaluated in a new innermost scope that
/// binds the parameters to their values, which is closed afterwards.
fn new_model_for_fn_def<F: Fn(&Num, &Num) -> NumOrder>(
    lam: &Lambda,
    l: &Vec<Oexp>,
    n: usize,
    modl: &mut Model,
    order: &F,
    g: u64,
) -> (r: Option<Result<Oexp, RomeError>>)
    requires
        n <= l.len(),
        is_order(*order),
    ensures
        agrees(
            sem_call(
                g as nat,
                lam.params_view(),
                lam.body_view(),
                Oexp::views_of(l@).take(n as int),
                old(modl)@,
                order_of(*order),
            ),
            r,
            old(modl)@,
            final(modl)@,
        ),
    decreases g, 5nat,
{
    proof { lemma_views_of(l@); }
    let ks = match parse_list_of_symbol_strings(lam.params()) {
        Ok(ks) => ks,
        Err(e) => {
            return Some(Err(e));
        },
    };
    if ks.len() != n {
        let mut msg = String::from_str("expected ");
        msg.append(decimal_string(ks.len()).as_str());
        msg.append(" arguments, got ");
        msg.append(decimal_string(n).as_str());
        assert(msg@ == arity_message(ks@.len() as nat, n as nat));
        return Some(Err(RomeError::ReaderError(msg)));
    }
    let vs = match eval_forms(l, n, modl, order, g) {
        Some(Ok(vs)) => vs,
        Some(Err(e)) => {
            return Some(Err(e));
        },
        None => {
            return None;
        },
    };
    proof {
        lemma_views_of(vs@);
        lemma_forms_len(
            g as nat,
            Oexp::views_of(l@).take(n as int),
            seq![],
            old(modl)@,
            order_of(*order),
        );
    }
    let bindings = pair_up(&ks, &vs);
    modl.note_has_scope();
    modl.enter(bindings);
    let r = eval_in(lam.body(), modl, order, g);
    match r {
        Some(x) => {
            modl.leave();
            Some(x)
        },
        None => None,
    }
}

/// Evaluates a list: the last form says what to do with the others.
fn eval_list<F: Fn(&Num, &Num) -> NumOrder>(l: &Vec<Oexp>, modl: &mut Model, order: &F, g: u64) -> (r:
    Option<Result<Oexp, RomeError>>)
    requires
        is_order(*order),
    ensures
        agrees(sem_list(g as nat, Oexp::views_of(l@), old(modl)@, order_of(*order)), r, old(modl)@, final(modl)@),
    decreases g, 6nat,
{
    proof { lemma_views_of(l@); }
    let ghost lv = Oexp::views_of(l@);
    if l.len() == 0 {
        return Some(Err(RomeError::operator("Did not expect an empty list here")));
    }
    let n = l.len() - 1;
    assert(lv.last() == l@[n as int]@);
    assert(lv.drop_last() == lv.take(n as int));
    let last_form = &l[n];
    match builtin_form_of(last_form) {
        Some(Form::Query) => eval_query(l, n, modl, order, g),
        Some(Form::Define) => eval_define(l, n, modl, order, g),
        Some(Form::FnDef) => eval_function_def(l, n, Ghost(modl@)),
        Some(Form::Subject) => {
            if n == 0 {
                return Some(
                    Err(RomeError::operator("expected a subject as first form in conditional")),
                );
            }
            assert(lv.take(n as int)[0] == l@[0]@);
            eval_in(&l[0], modl, order, g)
        },
        None => {
            let func_eval = match eval_in(last_form, modl, order, g) {
                Some(Ok(f)) => f,
                Some(Err(e)) => {
                    return Some(Err(e));
                },
                None => {
                    return None;
                },
            };
            match func_eval {
                Oexp::Function(b) => {
                    match eval_forms(l, n, modl, order, g) {
                        Some(Ok(vs)) => Some(apply_builtin_to(b, &vs)),
                        Some(Err(e)) => Some(Err(e)),
                        None => None,
                    }
                },
                Oexp::FunctionDef(lam) => new_model_for_fn_def(&lam, l, n, modl, order, g),
                _ => Some(Err(RomeError::operator("The last form must be a function"))),
            }
        },
    }
}

/// Evaluates `exp` in the scopes of `modl` within `depth` nested evaluations,
/// numbers comparing as `order` says. It gives nothing where evaluation needs
/// more depth or reaches a form that is not implemented (a comparison or
/// definition verb other than the ones handled, or `or` after `if`); there the
/// scopes are left as the evaluation had made them.
pub fn eval_bounded<F: Fn(&Num, &Num) -> NumOrder>(
    exp: &Oexp,
    modl: &mut Model,
    order: &F,
    depth: u64,
) -> (r: Option<Result<Oexp, RomeError>>)
    requires
        is_order(*order),
    ensures
        match r {
            Some(x) => sem_eval(depth as nat, exp@, old(modl)@, order_of(*order)) == Outcome::Done(
                res_view(x),
                final(modl)@,
            ),
            None => !(sem_eval(depth as nat, exp@, old(modl)@, order_of(*order)) is Done),
        },
{
    eval_in(exp, modl, order, depth)
}

/// Evaluates `exp` in the scopes of `modl`, numbers comparing as `order` says.
/// Definitions that the evaluation makes stay in `modl`, also where it ends in
/// an error.
pub fn eval<F: Fn(&Num, &Num) -> NumOrder>(exp: &Oexp, modl: &mut Model, order: &F) -> (r: Result<
    Oexp,
    RomeError,
>)
    requires
        is_order(*order),
        finishes(exp@, old(modl)@, order_of(*order)),
    ensures
        forall|fuel: nat| #[trigger]
            sem_eval(fuel, exp@, old(modl)@, order_of(*order)) is Done ==> sem_eval(
                fuel,
                exp@,
                old(modl)@,
                order_of(*order),
            ) == Outcome::Done(res_view(r), final(modl)@),
{
    let ghost ord = order_of(*order);
    let ghost st = modl@;
    let ghost fuel = choose|fuel: nat| fuel <= u64::MAX && #[trigger] sem_eval(fuel, exp@, st, ord) is Done;
    proof { lemma_eval_fuel(fuel, u64::MAX as nat, exp@, st, ord); }
    let r = match eval_in(exp, modl, order, u64::MAX) {
        Some(x) => x,
        None => {
            proof { assert(false); }
            vstd::pervasive::unreached()
        },
    };
    proof {
        assert forall|f: nat| #[trigger] sem_eval(f, exp@, st, ord) is Done implies sem_eval(
            f,
            exp@,
            st,
            ord,
        ) == Outcome::Done(res_view(r), modl@) by {
            if f <= u64::MAX {
                lemma_eval_fuel(f, u64::MAX as nat, exp@, st, ord);
            } else {
                lemma_eval_fuel(u64::MAX as nat, f, exp@, st, ord);
            }
        }
    }
    r
}

}
