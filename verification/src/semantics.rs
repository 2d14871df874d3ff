use vstd::prelude::*;
use crate::text::decimal;
use crate::oexp::{OexpV, NumV, Builtin};
use crate::error::ErrV;
use crate::model::{spec_lookup, spec_define, bindings_map};

verus! {

/// How two numbers compare as double-precision values.
#[derive(PartialEq, Eq, Structural, Clone, Copy, Debug)]
pub enum NumOrder {
    Less,
    Equal,
    Greater,
    /// At least one of the two is not a number (NaN).
    Unordered,
}

/// What evaluating an expression comes to, within a bound on the depth of
/// nested evaluations: a result and the scopes after it; a point where the
/// program cannot go on (a form that is not implemented); or the bound ran out.
pub enum Outcome<T> {
    Done(Result<T, ErrV>, Seq<Map<Seq<char>, OexpV>>),
    Stuck,
    OutOfFuel,
}

/// The forms that the evaluator handles itself when they end a list.
pub enum Form {
    /// `?`: a comparison or a conditional.
    Query,
    /// `.`: a definition.
    Define,
    /// `fn`: a function definition.
    FnDef,
    /// `!`: evaluation of a subject.
    Subject,
}

pub open spec fn builtin_form(e: OexpV) -> Option<Form> {
    match e {
        OexpV::Symbol(s) => if s == "?"@ {
            Some(Form::Query)
        } else if s == "."@ {
            Some(Form::Define)
        } else if s == "fn"@ {
            Some(Form::FnDef)
        } else if s == "!"@ {
            Some(Form::Subject)
        } else {
            None
        },
        _ => None,
    }
}

pub open spec fn op_err<T>(msg: Seq<char>, st: Seq<Map<Seq<char>, OexpV>>) -> Outcome<T> {
    Outcome::Done(Err(ErrV::Operator(msg)), st)
}

pub open spec fn reader_err<T>(msg: Seq<char>, st: Seq<Map<Seq<char>, OexpV>>) -> Outcome<T> {
    Outcome::Done(Err(ErrV::Reader(msg)), st)
}

/// The number inside a numeric value.
pub open spec fn num_of(e: OexpV) -> NumV {
    match e {
        OexpV::Number(n) => n,
        _ => NumV::Lit(seq![]),
    }
}

/// Applying a native function to evaluated arguments.
pub open spec fn apply_builtin(b: Builtin, args: Seq<OexpV>) -> Result<OexpV, ErrV> {
    if forall|i: int| 0 <= i < args.len() ==> (#[trigger] args[i]) is Number {
        let nums = args.map_values(|a: OexpV| num_of(a));
        match b {
            Builtin::Add => Ok(OexpV::Number(NumV::Sum(nums))),
            Builtin::Mul => Ok(OexpV::Number(NumV::Product(nums))),
        }
    } else {
        Err(ErrV::Reader("expected a number"@))
    }
}

/// Whether a comparison verb holds of two numbers that compare as `o`.
pub open spec fn verb_holds(v: Seq<char>, o: NumOrder) -> bool {
    if v == ">"@ {
        o == NumOrder::Greater
    } else if v == "<"@ {
        o == NumOrder::Less
    } else if v == "="@ || v == "=="@ {
        o == NumOrder::Equal
    } else if v == ">="@ {
        o == NumOrder::Greater || o == NumOrder::Equal
    } else if v == "=<"@ {
        o == NumOrder::Less || o == NumOrder::Equal
    } else {
        o != NumOrder::Equal
    }
}

pub open spec fn is_comparison_verb(v: Seq<char>) -> bool {
    v == ">"@ || v == "<"@ || v == "="@ || v == "=="@ || v == ">="@ || v == "=<"@ || v == "~="@
        || v == "!="@
}

/// A comparison of two forms, which must be numbers; they are not evaluated.
pub open spec fn compare_forms(
    v: Seq<char>,
    subject: OexpV,
    object: OexpV,
    ord: spec_fn(NumV, NumV) -> NumOrder,
) -> Result<OexpV, ErrV> {
    match (subject, object) {
        (OexpV::Number(a), OexpV::Number(b)) => Ok(OexpV::Boolean(verb_holds(v, ord(a, b)))),
        _ => Err(ErrV::Operator("Can compare only two numbers (as of now)"@)),
    }
}

/// The names of the parameters of a function: its parameter form is a list of
/// symbols, or a single symbol.
pub open spec fn param_names(p: OexpV) -> Result<Seq<Seq<char>>, ErrV> {
    match p {
        OexpV::List(l) => if forall|i: int| 0 <= i < l.len() ==> (#[trigger] l[i]) is Symbol {
            Ok(l.map_values(|x: OexpV| x->Symbol_0))
        } else {
            Err(ErrV::Reader("Expected symbols in the argument list"@))
        },
        OexpV::Symbol(a) => Ok(seq![a]),
        _ => Err(ErrV::Reader("Expected arg form to be a list"@)),
    }
}

/// The scope that binds the names `ks` to the values `vs`, in order.
pub open spec fn bind_params(ks: Seq<Seq<char>>, vs: Seq<OexpV>) -> Map<Seq<char>, OexpV> {
    bindings_map(Seq::new(ks.len(), |i: int| (ks[i], vs[i])))
}

pub open spec fn arity_message(expected: nat, got: nat) -> Seq<char> {
    "expected "@ + decimal(expected) + " arguments, got "@ + decimal(got)
}

/// `fn`: `(params => body fn)` makes a function; nothing is evaluated.
pub open spec fn sem_fn_def(args: Seq<OexpV>, st: Seq<Map<Seq<char>, OexpV>>) -> Outcome<OexpV> {
    if args.len() < 2 {
        op_err("expected a verb as second form in conditional"@, st)
    } else {
        match args[1] {
            OexpV::Symbol(v) => if v == "=>"@ {
                if args.len() < 3 {
                    op_err("expected function body as third form in function def"@, st)
                } else {
                    Outcome::Done(
                        Ok(OexpV::FunctionDef(Box::new(args[0]), Box::new(args[2]))),
                        st,
                    )
                }
            } else {
                Outcome::Stuck
            },
            _ => Outcome::Stuck,
        }
    }
}

/// Evaluating `e` in the scopes `st` with at most `fuel` nested evaluations,
/// numbers comparing as `ord` says.
pub open spec fn sem_eval(
    fuel: nat,
    e: OexpV,
    st: Seq<Map<Seq<char>, OexpV>>,
    ord: spec_fn(NumV, NumV) -> NumOrder,
) -> Outcome<OexpV>
    decreases fuel, 0nat, 0nat,
{
    if fuel == 0 {
        Outcome::OutOfFuel
    } else {
        let g = (fuel - 1) as nat;
        match e {
            OexpV::Symbol(k) => match spec_lookup(st, k) {
                Some(v) => Outcome::Done(Ok(v), st),
                None => op_err("Unexpected symbok k='"@ + k + "'"@, st),
            },
            OexpV::Number(_) => Outcome::Done(Ok(e), st),
            OexpV::Boolean(_) => Outcome::Done(Ok(e), st),
            OexpV::List(l) => sem_list(g, l, st, ord),
            OexpV::Function(_) => op_err("I don't know this function"@, st),
            OexpV::FunctionDef(_, _) => op_err("I didn't expect this function definition here"@, st),
        }
    }
}

/// Evaluating the forms `forms` one after the other, the values so far being
/// `acc`; the first error stops it.
pub open spec fn sem_forms(
    fuel: nat,
    forms: Seq<OexpV>,
    acc: Seq<OexpV>,
    st: Seq<Map<Seq<char>, OexpV>>,
    ord: spec_fn(NumV, NumV) -> NumOrder,
) -> Outcome<Seq<OexpV>>
    decreases fuel, 1nat, forms.len(),
{
    if forms.len() == 0 {
        Outcome::Done(Ok(acc), st)
    } else {
        match sem_eval(fuel, forms[0], st, ord) {
            Outcome::Done(Ok(v), st1) => sem_forms(fuel, forms.drop_first(), acc.push(v), st1, ord),
            Outcome::Done(Err(e), st1) => Outcome::Done(Err(e), st1),
            Outcome::Stuck => Outcome::Stuck,
            Outcome::OutOfFuel => Outcome::OutOfFuel,
        }
    }
}

/// The conditional `(subject if object else other ?)`.
pub open spec fn sem_if(
    fuel: nat,
    subject: OexpV,
    object: OexpV,
    rem: Seq<OexpV>,
    st: Seq<Map<Seq<char>, OexpV>>,
    ord: spec_fn(NumV, NumV) -> NumOrder,
) -> Outcome<OexpV>
    decreases fuel, 2nat, 0nat,
{
    match sem_eval(fuel, object, st, ord) {
        Outcome::Done(Ok(OexpV::Boolean(true)), st1) => sem_eval(fuel, subject, st1, ord),
        Outcome::Done(Ok(OexpV::Boolean(false)), st1) => if rem.len() == 0 {
            op_err("expected else/or branch for if condition"@, st1)
        } else {
            match rem[0] {
                OexpV::Symbol(k) => if k == "else"@ {
                    if rem.len() < 2 {
                        op_err("...else what?..."@, st1)
                    } else {
                        sem_eval(fuel, rem[1], st1, ord)
                    }
                } else if k == "or"@ {
                    Outcome::Stuck
                } else {
                    op_err("Expected else or or after if condition"@, st1)
                },
                _ => reader_err("could not read this keyword"@, st1),
            }
        },
        Outcome::Done(Ok(_), st1) => op_err("Unexpected test form"@, st1),
        Outcome::Done(Err(e), st1) => Outcome::Done(Err(e), st1),
        Outcome::Stuck => Outcome::Stuck,
        Outcome::OutOfFuel => Outcome::OutOfFuel,
    }
}

/// `?`: `(subject verb object ... ?)`.
pub open spec fn sem_query(
    fuel: nat,
    args: Seq<OexpV>,
    st: Seq<Map<Seq<char>, OexpV>>,
    ord: spec_fn(NumV, NumV) -> NumOrder,
) -> Outcome<OexpV>
    decreases fuel, 3nat, 0nat,
{
    if args.len() < 1 {
        op_err("expected a subject as first form in conditional"@, st)
    } else if args.len() < 2 {
        op_err("expected a verb as second form in conditional"@, st)
    } else if args.len() < 3 {
        op_err("expected an object as third form in conditional"@, st)
    } else {
        match args[1] {
            OexpV::Symbol(v) => if is_comparison_verb(v) {
                Outcome::Done(compare_forms(v, args[0], args[2], ord), st)
            } else if v == "if"@ {
                sem_if(fuel, args[0], args[2], args.skip(3), st, ord)
            } else {
                Outcome::Stuck
            },
            _ => Outcome::Stuck,
        }
    }
}

/// `.`: `(name = object .)` binds `name` to the value of `object` in the
/// innermost scope, and gives back the form `name`.
pub open spec fn sem_define(
    fuel: nat,
    args: Seq<OexpV>,
    st: Seq<Map<Seq<char>, OexpV>>,
    ord: spec_fn(NumV, NumV) -> NumOrder,
) -> Outcome<OexpV>
    decreases fuel, 4nat, 0nat,
{
    if args.len() < 1 {
        op_err("expected a subject as first form in definition"@, st)
    } else {
        match args[0] {
            OexpV::Symbol(name) => if args.len() < 2 {
                op_err("expected a verb as second form in definition"@, st)
            } else if args.len() < 3 {
                op_err("expected an object as third form in definition"@, st)
            } else if args.len() > 3 {
                op_err(
                    "A definition can have only subject, verb and object. I can't handle more..."@,
                    st,
                )
            } else {
                match args[1] {
                    OexpV::Symbol(v) => if v == "="@ {
                        match sem_eval(fuel, args[2], st, ord) {
                            Outcome::Done(Ok(val), st1) => Outcome::Done(
                                Ok(args[0]),
                                spec_define(st1, name, val),
                            ),
                            Outcome::Done(Err(e), st1) => Outcome::Done(Err(e), st1),
                            Outcome::Stuck => Outcome::Stuck,
                            Outcome::OutOfFuel => Outcome::OutOfFuel,
                        }
                    } else {
                        Outcome::Stuck
                    },
                    _ => Outcome::Stuck,
                }
            },
            _ => op_err("Expected subject to be an oexp of type symbol"@, st),
        }
    }
}

/// Calling a function defined in the language on the argument forms `args`:
/// they are evaluated in `st`, and the body is evaluated in a new innermost
/// scope that binds the parameters to them, which is closed afterwards.
pub open spec fn sem_call(
    fuel: nat,
    params: OexpV,
    body: OexpV,
    args: Seq<OexpV>,
    st: Seq<Map<Seq<char>, OexpV>>,
    ord: spec_fn(NumV, NumV) -> NumOrder,
) -> Outcome<OexpV>
    decreases fuel, 5nat, 0nat,
{
    match param_names(params) {
        Err(e) => Outcome::Done(Err(e), st),
        Ok(ks) => if ks.len() != args.len() {
            reader_err(arity_message(ks.len(), args.len()), st)
        } else {
            match sem_forms(fuel, args, seq![], st, ord) {
                Outcome::Done(Ok(vs), st1) => match sem_eval(
                    fuel,
                    body,
                    st1.push(bind_params(ks, vs)),
                    ord,
                ) {
                    Outcome::Done(r, st2) => Outcome::Done(r, st2.drop_last()),
                    Outcome::Stuck => Outcome::Stuck,
                    Outcome::OutOfFuel => Outcome::OutOfFuel,
                },
                Outcome::Done(Err(e), st1) => Outcome::Done(Err(e), st1),
                Outcome::Stuck => Outcome::Stuck,
                Outcome::OutOfFuel => Outcome::OutOfFuel,
            }
        },
    }
}

/// Evaluating a list: the last form says what to do with the others.
pub open spec fn sem_list(
    fuel: nat,
    l: Seq<OexpV>,
    st: Seq<Map<Seq<char>, OexpV>>,
    ord: spec_fn(NumV, NumV) -> NumOrder,
) -> Outcome<OexpV>
    decreases fuel, 6nat, 0nat,
{
    if l.len() == 0 {
        op_err("Did not expect an empty list here"@, st)
    } else {
        let last = l.last();
        let args = l.drop_last();
        match builtin_form(last) {
            Some(Form::Query) => sem_query(fuel, args, st, ord),
            Some(Form::Define) => sem_define(fuel, args, st, ord),
            Some(Form::FnDef) => sem_fn_def(args, st),
            Some(Form::Subject) => if args.len() == 0 {
                op_err("expected a subject as first form in conditional"@, st)
            } else {
                sem_eval(fuel, args[0], st, ord)
            },
            None => match sem_eval(fuel, last, st, ord) {
                Outcome::Done(Ok(f), st1) => match f {
                    OexpV::Function(b) => match sem_forms(fuel, args, seq![], st1, ord) {
                        Outcome::Done(Ok(vs), st2) => Outcome::Done(apply_builtin(b, vs), st2),
                        Outcome::Done(Err(e), st2) => Outcome::Done(Err(e), st2),
                        Outcome::Stuck => Outcome::Stuck,
                        Outcome::OutOfFuel => Outcome::OutOfFuel,
                    },
                    OexpV::FunctionDef(p, b) => sem_call(fuel, *p, *b, args, st1, ord),
                    _ => op_err("The last form must be a function"@, st1),
                },
                Outcome::Done(Err(e), st1) => Outcome::Done(Err(e), st1),
                Outcome::Stuck => Outcome::Stuck,
                Outcome::OutOfFuel => Outcome::OutOfFuel,
            },
        }
    }
}

/// Whether evaluating `e` in `st` comes to a result or an error within some
/// bound on the depth of nested evaluations that a 64-bit counter can hold.
pub open spec fn finishes(
    e: OexpV,
    st: Seq<Map<Seq<char>, OexpV>>,
    ord: spec_fn(NumV, NumV) -> NumOrder,
) -> bool {
    exists|fuel: nat| fuel <= u64::MAX && #[trigger] sem_eval(fuel, e, st, ord) is Done
}

}
