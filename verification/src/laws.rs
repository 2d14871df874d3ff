use vstd::prelude::*;
use crate::oexp::{OexpV, NumV};
use crate::model::{spec_lookup, spec_define, core_frames};
use crate::text::is_white;
use crate::numeral::{
    all_digits, is_digit, is_sign, is_mantissa, is_number, is_exponent, is_signed_digits,
    is_float_literal, letter_ci, word_ci,
};
use crate::reader::{spaced, split_from, split_white, spec_tokenise, spec_parse, spec_read_seq, flush, set_apart};
use crate::oexp::Builtin;
use crate::error::ErrV;
use crate::reader::{views_of_strings};
use crate::semantics::{
    NumOrder, Outcome, sem_eval, sem_forms, sem_list, sem_query, sem_if, sem_define, sem_call,
    sem_fn_def, builtin_form, Form, param_names, bind_params,
};

verus! {

/// Once evaluating `e` comes to a result within a bound on the depth of nested
/// evaluations, any larger bound gives the same result and the same scopes.
pub proof fn lemma_eval_fuel(
    f1: nat,
    f2: nat,
    e: OexpV,
    st: Seq<Map<Seq<char>, OexpV>>,
    ord: spec_fn(NumV, NumV) -> NumOrder,
)
    requires
        f1 <= f2,
        sem_eval(f1, e, st, ord) is Done,
    ensures
        sem_eval(f2, e, st, ord) == sem_eval(f1, e, st, ord),
    decreases f1, 0nat, 0nat,
{
    match e {
        OexpV::List(l) => {
            lemma_list_fuel((f1 - 1) as nat, (f2 - 1) as nat, l, st, ord);
        },
        _ => {},
    }
}

proof fn lemma_forms_fuel(
    g1: nat,
    g2: nat,
    forms: Seq<OexpV>,
    acc: Seq<OexpV>,
    st: Seq<Map<Seq<char>, OexpV>>,
    ord: spec_fn(NumV, NumV) -> NumOrder,
)
    requires
        g1 <= g2,
        sem_forms(g1, forms, acc, st, ord) is Done,
    ensures
        sem_forms(g2, forms, acc, st, ord) == sem_forms(g1, forms, acc, st, ord),
    decreases g1, 1nat, forms.len(),
{
    if forms.len() > 0 {
        lemma_eval_fuel(g1, g2, forms[0], st, ord);
        match sem_eval(g1, forms[0], st, ord) {
            Outcome::Done(Ok(v), st1) => {
                lemma_forms_fuel(g1, g2, forms.drop_first(), acc.push(v), st1, ord);
            },
            _ => {},
        }
    }
}

proof fn lemma_if_fuel(
    g1: nat,
    g2: nat,
    subject: OexpV,
    object: OexpV,
    rem: Seq<OexpV>,
    st: Seq<Map<Seq<char>, OexpV>>,
    ord: spec_fn(NumV, NumV) -> NumOrder,
)
    requires
        g1 <= g2,
        sem_if(g1, subject, object, rem, st, ord) is Done,
    ensures
        sem_if(g2, subject, object, rem, st, ord) == sem_if(g1, subject, object, rem, st, ord),
    decreases g1, 2nat, 0nat,
{
    lemma_eval_fuel(g1, g2, object, st, ord);
    match sem_eval(g1, object, st, ord) {
        Outcome::Done(Ok(OexpV::Boolean(true)), st1) => {
            lemma_eval_fuel(g1, g2, subject, st1, ord);
        },
        Outcome::Done(Ok(OexpV::Boolean(false)), st1) => {
            if rem.len() >= 2 && rem[0] == OexpV::Symbol("else"@) {
                lemma_eval_fuel(g1, g2, rem[1], st1, ord);
            }
        },
        _ => {},
    }
}

proof fn lemma_query_fuel(
    g1: nat,
    g2: nat,
    args: Seq<OexpV>,
    st: Seq<Map<Seq<char>, OexpV>>,
    ord: spec_fn(NumV, NumV) -> NumOrder,
)
    requires
        g1 <= g2,
        sem_query(g1, args, st, ord) is Done,
    ensures
        sem_query(g2, args, st, ord) == sem_query(g1, args, st, ord),
    decreases g1, 3nat, 0nat,
{
    if args.len() >= 3 {
        match args[1] {
            OexpV::Symbol(v) => {
                if !crate::semantics::is_comparison_verb(v) && v == "if"@ {
                    lemma_if_fuel(g1, g2, args[0], args[2], args.skip(3), st, ord);
                }
            },
            _ => {},
        }
    }
}

proof fn lemma_define_fuel(
    g1: nat,
    g2: nat,
    args: Seq<OexpV>,
    st: Seq<Map<Seq<char>, OexpV>>,
    ord: spec_fn(NumV, NumV) -> NumOrder,
)
    requires
        g1 <= g2,
        sem_define(g1, args, st, ord) is Done,
    ensures
        sem_define(g2, args, st, ord) == sem_define(g1, args, st, ord),
    decreases g1, 4nat, 0nat,
{
    if args.len() == 3 && args[0] is Symbol && args[1] == OexpV::Symbol("="@) {
        lemma_eval_fuel(g1, g2, args[2], st, ord);
    }
}

proof fn lemma_call_fuel(
    g1: nat,
    g2: nat,
    params: OexpV,
    body: OexpV,
    args: Seq<OexpV>,
    st: Seq<Map<Seq<char>, OexpV>>,
    ord: spec_fn(NumV, NumV) -> NumOrder,
)
    requires
        g1 <= g2,
        sem_call(g1, params, body, args, st, ord) is Done,
    ensures
        sem_call(g2, params, body, args, st, ord) == sem_call(g1, params, body, args, st, ord),
    decreases g1, 5nat, 0nat,
{
    match param_names(params) {
        Ok(ks) => {
            if ks.len() == args.len() {
                lemma_forms_fuel(g1, g2, args, seq![], st, ord);
                match sem_forms(g1, args, seq![], st, ord) {
                    Outcome::Done(Ok(vs), st1) => {
                        lemma_eval_fuel(g1, g2, body, st1.push(bind_params(ks, vs)), ord);
                    },
                    _ => {},
                }
            }
        },
        _ => {},
    }
}

proof fn lemma_list_fuel(
    g1: nat,
    g2: nat,
    l: Seq<OexpV>,
    st: Seq<Map<Seq<char>, OexpV>>,
    ord: spec_fn(NumV, NumV) -> NumOrder,
)
    requires
        g1 <= g2,
        sem_list(g1, l, st, ord) is Done,
    ensures
        sem_list(g2, l, st, ord) == sem_list(g1, l, st, ord),
    decreases g1, 6nat, 0nat,
{
    if l.len() > 0 {
        let last = l.last();
        let args = l.drop_last();
        match builtin_form(last) {
            Some(Form::Query) => lemma_query_fuel(g1, g2, args, st, ord),
            Some(Form::Define) => lemma_define_fuel(g1, g2, args, st, ord),
            Some(Form::FnDef) => {},
            Some(Form::Subject) => {
                if args.len() > 0 {
                    lemma_eval_fuel(g1, g2, args[0], st, ord);
                }
            },
            None => {
                lemma_eval_fuel(g1, g2, last, st, ord);
                match sem_eval(g1, last, st, ord) {
                    Outcome::Done(Ok(f), st1) => match f {
                        OexpV::Function(_) => lemma_forms_fuel(g1, g2, args, seq![], st1, ord),
                        OexpV::FunctionDef(p, b) => lemma_call_fuel(g1, g2, *p, *b, args, st1, ord),
                        _ => {},
                    },
                    _ => {},
                }
            },
        }
    }
}


/// Evaluation leaves as many scopes as it found, and changes none but the
/// innermost: a scope opened for a call is closed when the call returns, also
/// where it ends in an error, and a call cannot change its caller's bindings.
pub proof fn lemma_eval_scopes(
    f: nat,
    e: OexpV,
    st: Seq<Map<Seq<char>, OexpV>>,
    ord: spec_fn(NumV, NumV) -> NumOrder,
)
    requires
        st.len() >= 1,
    ensures
        sem_eval(f, e, st, ord) matches Outcome::Done(_, st2) ==> st2.len() == st.len() && st2.drop_last()
            == st.drop_last(),
    decreases f, 0nat, 0nat,
{
    if f > 0 {
        match e {
            OexpV::List(l) => {
                lemma_list_scopes((f - 1) as nat, l, st, ord);
            },
            _ => {},
        }
    }
}

proof fn lemma_forms_scopes(
    g: nat,
    forms: Seq<OexpV>,
    acc: Seq<OexpV>,
    st: Seq<Map<Seq<char>, OexpV>>,
    ord: spec_fn(NumV, NumV) -> NumOrder,
)
    requires
        st.len() >= 1,
    ensures
        sem_forms(g, forms, acc, st, ord) matches Outcome::Done(_, st2) ==> st2.len() == st.len() && st2.drop_last()
            == st.drop_last(),
    decreases g, 1nat, forms.len(),
{
    if forms.len() > 0 {
        lemma_eval_scopes(g, forms[0], st, ord);
        match sem_eval(g, forms[0], st, ord) {
            Outcome::Done(Ok(v), st1) => {
                lemma_forms_scopes(g, forms.drop_first(), acc.push(v), st1, ord);
            },
            _ => {},
        }
    }
}

proof fn lemma_if_scopes(
    g: nat,
    subject: OexpV,
    object: OexpV,
    rem: Seq<OexpV>,
    st: Seq<Map<Seq<char>, OexpV>>,
    ord: spec_fn(NumV, NumV) -> NumOrder,
)
    requires
        st.len() >= 1,
    ensures
        sem_if(g, subject, object, rem, st, ord) matches Outcome::Done(_, st2) ==> st2.len() == st.len() && st2.drop_last()
            == st.drop_last(),
    decreases g, 2nat, 0nat,
{
    lemma_eval_scopes(g, object, st, ord);
    match sem_eval(g, object, st, ord) {
        Outcome::Done(Ok(OexpV::Boolean(true)), st1) => {
            lemma_eval_scopes(g, subject, st1, ord);
        },
        Outcome::Done(Ok(OexpV::Boolean(false)), st1) => {
            if rem.len() >= 2 {
                lemma_eval_scopes(g, rem[1], st1, ord);
            }
        },
        _ => {},
    }
}

proof fn lemma_query_scopes(
    g: nat,
    args: Seq<OexpV>,
    st: Seq<Map<Seq<char>, OexpV>>,
    ord: spec_fn(NumV, NumV) -> NumOrder,
)
    requires
        st.len() >= 1,
    ensures
        sem_query(g, args, st, ord) matches Outcome::Done(_, st2) ==> st2.len() == st.len() && st2.drop_last()
            == st.drop_last(),
    decreases g, 3nat, 0nat,
{
    if args.len() >= 3 {
        lemma_if_scopes(g, args[0], args[2], args.skip(3), st, ord);
    }
}

proof fn lemma_define_scopes(
    g: nat,
    args: Seq<OexpV>,
    st: Seq<Map<Seq<char>, OexpV>>,
    ord: spec_fn(NumV, NumV) -> NumOrder,
)
    requires
        st.len() >= 1,
    ensures
        sem_define(g, args, st, ord) matches Outcome::Done(_, st2) ==> st2.len() == st.len() && st2.drop_last()
            == st.drop_last(),
    decreases g, 4nat, 0nat,
{
    if args.len() == 3 {
        lemma_eval_scopes(g, args[2], st, ord);
    }
}

proof fn lemma_call_scopes(
    g: nat,
    params: OexpV,
    body: OexpV,
    args: Seq<OexpV>,
    st: Seq<Map<Seq<char>, OexpV>>,
    ord: spec_fn(NumV, NumV) -> NumOrder,
)
    requires
        st.len() >= 1,
    ensures
        sem_call(g, params, body, args, st, ord) matches Outcome::Done(_, st2) ==> st2.len() == st.len() && st2.drop_last()
            == st.drop_last(),
    decreases g, 5nat, 0nat,
{
    match param_names(params) {
        Ok(ks) => {
            if ks.len() == args.len() {
                lemma_forms_scopes(g, args, seq![], st, ord);
                match sem_forms(g, args, seq![], st, ord) {
                    Outcome::Done(Ok(vs), st1) => {
                        lemma_eval_scopes(g, body, st1.push(bind_params(ks, vs)), ord);
                    },
                    _ => {},
                }
            }
        },
        _ => {},
    }
}

proof fn lemma_list_scopes(
    g: nat,
    l: Seq<OexpV>,
    st: Seq<Map<Seq<char>, OexpV>>,
    ord: spec_fn(NumV, NumV) -> NumOrder,
)
    requires
        st.len() >= 1,
    ensures
        sem_list(g, l, st, ord) matches Outcome::Done(_, st2) ==> st2.len() == st.len() && st2.drop_last()
            == st.drop_last(),
    decreases g, 6nat, 0nat,
{
    if l.len() > 0 {
        let last = l.last();
        let args = l.drop_last();
        match builtin_form(last) {
            Some(Form::Query) => lemma_query_scopes(g, args, st, ord),
            Some(Form::Define) => lemma_define_scopes(g, args, st, ord),
            Some(Form::FnDef) => {},
            Some(Form::Subject) => {
                if args.len() > 0 {
                    lemma_eval_scopes(g, args[0], st, ord);
                }
            },
            None => {
                lemma_eval_scopes(g, last, st, ord);
                match sem_eval(g, last, st, ord) {
                    Outcome::Done(Ok(f), st1) => match f {
                        OexpV::Function(_) => lemma_forms_scopes(g, args, seq![], st1, ord),
                        OexpV::FunctionDef(p, b) => lemma_call_scopes(g, *p, *b, args, st1, ord),
                        _ => {},
                    },
                    _ => {},
                }
            },
        }
    }
}


/// The form `(name = object .)`.
pub open spec fn define_form(name: Seq<char>, object: OexpV) -> OexpV {
    OexpV::List(seq![OexpV::Symbol(name), OexpV::Symbol("="@), object, OexpV::Symbol("."@)])
}

/// The form `(subject if object else other ?)`.
pub open spec fn if_form(subject: OexpV, object: OexpV, other: OexpV) -> OexpV {
    OexpV::List(
        seq![
            subject,
            OexpV::Symbol("if"@),
            object,
            OexpV::Symbol("else"@),
            other,
            OexpV::Symbol("?"@),
        ],
    )
}

/// What the names of the built-in forms and verbs are.
proof fn lemma_form_names()
    ensures
        builtin_form(OexpV::Symbol("?"@)) == Some(Form::Query),
        builtin_form(OexpV::Symbol("."@)) == Some(Form::Define),
        builtin_form(OexpV::Symbol("fn"@)) == Some(Form::FnDef),
        builtin_form(OexpV::Symbol("!"@)) == Some(Form::Subject),
        !crate::semantics::is_comparison_verb("if"@),
        "+"@ != "*"@,
        builtin_form(OexpV::Symbol("+"@)) is None,
        builtin_form(OexpV::Symbol("*"@)) is None,
{
    reveal_strlit("?");
    reveal_strlit(".");
    reveal_strlit("fn");
    reveal_strlit("!");
    reveal_strlit("if");
    reveal_strlit(">");
    reveal_strlit("<");
    reveal_strlit("=");
    reveal_strlit("==");
    reveal_strlit(">=");
    reveal_strlit("=<");
    reveal_strlit("~=");
    reveal_strlit("!=");
    reveal_strlit("+");
    reveal_strlit("*");
    assert("."@[0] != "?"@[0]);
    assert("fn"@.len() != "?"@.len() && "fn"@.len() != "."@.len());
    assert("!"@[0] != "?"@[0] && "!"@[0] != "."@[0] && "!"@.len() != "fn"@.len());
    assert("if"@.len() != ">"@.len() && "if"@.len() != "<"@.len() && "if"@.len() != "="@.len());
    assert("if"@[0] != "=="@[0] && "if"@[0] != ">="@[0] && "if"@[0] != "=<"@[0]);
    assert("if"@[0] != "~="@[0] && "if"@[0] != "!="@[0]);
    assert("+"@[0] != "*"@[0]);
    assert("+"@[0] != "?"@[0] && "+"@[0] != "."@[0] && "+"@.len() != "fn"@.len() && "+"@[0] != "!"@[0]);
    assert("*"@[0] != "?"@[0] && "*"@[0] != "."@[0] && "*"@.len() != "fn"@.len() && "*"@[0] != "!"@[0]);
}

/// A binding made in the innermost scope is what a lookup of its name finds,
/// a lookup of any other name finds what it found before, and only the
/// innermost scope changes: it binds the name to the value, replacing an
/// earlier binding, and keeps its other bindings.
pub proof fn lemma_define_then_lookup(st: Seq<Map<Seq<char>, OexpV>>, k: Seq<char>, v: OexpV)
    requires
        st.len() >= 1,
    ensures
        spec_lookup(spec_define(st, k, v), k) == Some(v),
        forall|other: Seq<char>|
            other != k ==> #[trigger] spec_lookup(spec_define(st, k, v), other) == spec_lookup(
                st,
                other,
            ),
        spec_define(st, k, v).len() == st.len(),
        spec_define(st, k, v).drop_last() == st.drop_last(),
        spec_define(st, k, v).last() == st.last().insert(k, v),
{
    let st2 = spec_define(st, k, v);
    assert(st2.drop_last() == st.drop_last());
}

/// The core model binds `+` to the native sum and `*` to the native product.
pub proof fn lemma_core_model()
    ensures
        spec_lookup(core_frames(), "+"@) == Some(OexpV::Function(Builtin::Add)),
        spec_lookup(core_frames(), "*"@) == Some(OexpV::Function(Builtin::Mul)),
{
    lemma_form_names();
}

/// Numbers and booleans evaluate to themselves, and change nothing.
pub proof fn lemma_literal(
    fuel: nat,
    e: OexpV,
    st: Seq<Map<Seq<char>, OexpV>>,
    ord: spec_fn(NumV, NumV) -> NumOrder,
)
    requires
        fuel >= 1,
        e is Number || e is Boolean,
    ensures
        sem_eval(fuel, e, st, ord) == Outcome::Done(Ok(e), st),
{
}

/// `(name = object .)` gives back the form `name` and binds `name` to the value
/// of `object`; evaluating `name` afterwards gives that value.
pub proof fn lemma_define_then_read(
    fuel: nat,
    name: Seq<char>,
    object: OexpV,
    st: Seq<Map<Seq<char>, OexpV>>,
    ord: spec_fn(NumV, NumV) -> NumOrder,
    later: nat,
)
    requires
        st.len() >= 1,
        later >= 1,
        sem_eval(fuel, define_form(name, object), st, ord) is Done,
    ensures
        sem_eval((fuel - 1) as nat, object, st, ord) matches Outcome::Done(Ok(v), st1) ==> {
            &&& sem_eval(fuel, define_form(name, object), st, ord) == Outcome::Done(
                Ok(OexpV::Symbol(name)),
                spec_define(st1, name, v),
            )
            &&& sem_eval(later, OexpV::Symbol(name), spec_define(st1, name, v), ord)
                == Outcome::Done(Ok(v), spec_define(st1, name, v))
        },
        sem_eval((fuel - 1) as nat, object, st, ord) matches Outcome::Done(Err(e), st1) ==> sem_eval(
            fuel,
            define_form(name, object),
            st,
            ord,
        ) == Outcome::<OexpV>::Done(Err(e), st1),
{
    lemma_form_names();
    let l = seq![OexpV::Symbol(name), OexpV::Symbol("="@), object, OexpV::Symbol("."@)];
    assert(l.last() == OexpV::Symbol("."@));
    let args = l.drop_last();
    assert(args == seq![OexpV::Symbol(name), OexpV::Symbol("="@), object]);
    assert(args[0] == OexpV::Symbol(name) && args[1] == OexpV::Symbol("="@) && args[2] == object);
    let g = (fuel - 1) as nat;
    assert(sem_eval(fuel, define_form(name, object), st, ord) == sem_list(g, l, st, ord));
    assert(sem_list(g, l, st, ord) == sem_define(g, args, st, ord));
    lemma_eval_scopes(g, object, st, ord);
    match sem_eval(g, object, st, ord) {
        Outcome::Done(Ok(v), st1) => {
            lemma_define_then_lookup(st1, name, v);
        },
        _ => {},
    }
}

/// `(subject if object else other ?)` gives the value of `subject` where
/// `object` evaluates to true, and that of `other` where it evaluates to false.
pub proof fn lemma_if_chooses(
    fuel: nat,
    subject: OexpV,
    object: OexpV,
    other: OexpV,
    st: Seq<Map<Seq<char>, OexpV>>,
    ord: spec_fn(NumV, NumV) -> NumOrder,
)
    requires
        fuel >= 1,
    ensures
        sem_eval((fuel - 1) as nat, object, st, ord) matches Outcome::Done(
            Ok(OexpV::Boolean(true)),
            st1,
        ) ==> sem_eval(fuel, if_form(subject, object, other), st, ord) == sem_eval(
            (fuel - 1) as nat,
            subject,
            st1,
            ord,
        ),
        sem_eval((fuel - 1) as nat, object, st, ord) matches Outcome::Done(
            Ok(OexpV::Boolean(false)),
            st1,
        ) ==> sem_eval(fuel, if_form(subject, object, other), st, ord) == sem_eval(
            (fuel - 1) as nat,
            other,
            st1,
            ord,
        ),
{
    lemma_form_names();
    let l = seq![
        subject,
        OexpV::Symbol("if"@),
        object,
        OexpV::Symbol("else"@),
        other,
        OexpV::Symbol("?"@),
    ];
    let args = l.drop_last();
    assert(args == seq![subject, OexpV::Symbol("if"@), object, OexpV::Symbol("else"@), other]);
    assert(args.skip(3) == seq![OexpV::Symbol("else"@), other]);
    let g = (fuel - 1) as nat;
    assert(args[0] == subject && args[1] == OexpV::Symbol("if"@) && args[2] == object);
    assert(sem_eval(fuel, if_form(subject, object, other), st, ord) == sem_list(g, l, st, ord));
    assert(sem_list(g, l, st, ord) == sem_query(g, args, st, ord));
    assert(sem_query(g, args, st, ord) == sem_if(g, subject, object, args.skip(3), st, ord));
    assert(args.skip(3)[0] == OexpV::Symbol("else"@) && args.skip(3)[1] == other);
}


/// Reading an expression consumes at least one token, and what is left is the
/// tail of the tokens.
pub proof fn lemma_parse_consumes(ts: Seq<Seq<char>>)
    ensures
        spec_parse(ts) matches Ok((e, rest)) ==> rest.len() < ts.len() && rest == ts.skip(
            ts.len() - rest.len(),
        ),
    decreases ts.len(), 0nat,
{
    if ts.len() > 0 && ts[0] == "("@ {
        lemma_read_seq_consumes(ts.drop_first(), seq![]);
        match spec_read_seq(ts.drop_first(), seq![]) {
            Ok((e, rest)) => {
                assert(ts.drop_first().skip(ts.drop_first().len() - rest.len()) == ts.skip(
                    ts.len() - rest.len(),
                ));
            },
            _ => {},
        }
    } else if ts.len() > 0 {
        assert(ts.drop_first() == ts.skip(1));
    }
}

/// Reading the rest of a list gives a list, and what is left is a shorter tail
/// of the tokens.
pub proof fn lemma_read_seq_consumes(ts: Seq<Seq<char>>, acc: Seq<OexpV>)
    ensures
        spec_read_seq(ts, acc) matches Ok((e, rest)) ==> e is List && rest.len() < ts.len()
            && rest == ts.skip(ts.len() - rest.len()),
    decreases ts.len(), 1nat,
{
    if ts.len() > 0 {
        if ts[0] == ")"@ {
            assert(ts.drop_first() == ts.skip(1));
        } else {
            lemma_parse_consumes(ts);
            match spec_parse(ts) {
                Ok((x, r)) => {
                    lemma_read_seq_consumes(r, acc.push(x));
                    match spec_read_seq(r, acc.push(x)) {
                        Ok((e, rest)) => {
                            assert(r.skip(r.len() - rest.len()) == ts.skip(ts.len() - rest.len()));
                        },
                        _ => {},
                    }
                },
                _ => {},
            }
        }
    }
}

/// `t` holds no white space.
pub open spec fn no_white(t: Seq<char>) -> bool {
    forall|i: int| 0 <= i < t.len() ==> !is_white(#[trigger] t[i])
}

/// Every word of `ws` is non-empty and holds no white space.
pub open spec fn all_words(ws: Seq<Seq<char>>) -> bool {
    forall|j: int| 0 <= j < ws.len() ==> (#[trigger] ws[j]).len() > 0 && no_white(ws[j])
}

proof fn lemma_all_words_concat(a: Seq<Seq<char>>, b: Seq<Seq<char>>)
    requires
        all_words(a),
        all_words(b),
    ensures
        all_words(a + b),
{
    assert forall|j: int| 0 <= j < (a + b).len() implies (#[trigger] (a + b)[j]).len() > 0
        && no_white((a + b)[j]) by {
        if j < a.len() {
            assert((a + b)[j] == a[j]);
        } else {
            assert((a + b)[j] == b[j - a.len()]);
        }
    }
}

/// Every word that splitting at white space gives is non-empty and holds no
/// white space.
pub proof fn lemma_split_words(s: Seq<char>, cur: Seq<char>)
    requires
        no_white(cur),
    ensures
        all_words(split_from(s, cur)),
    decreases s.len(),
{
    assert(all_words(flush(cur))) by {
        if cur.len() > 0 {
            assert(flush(cur)[0] == cur);
        }
    }
    if s.len() > 0 {
        if is_white(s[0]) {
            lemma_split_words(s.drop_first(), seq![]);
            lemma_all_words_concat(flush(cur), split_from(s.drop_first(), seq![]));
        } else {
            let c2 = cur.push(s[0]);
            assert forall|i: int| 0 <= i < c2.len() implies !is_white(#[trigger] c2[i]) by {
                if i < cur.len() {
                    assert(c2[i] == cur[i]);
                }
            }
            lemma_split_words(s.drop_first(), c2);
        }
    }
}

/// Splitting at a white character splits the two sides apart.
pub proof fn lemma_split_at_white(a: Seq<char>, w: char, b: Seq<char>, cur: Seq<char>)
    requires
        is_white(w),
    ensures
        split_from(a + seq![w] + b, cur) == split_from(a, cur) + split_from(b, seq![]),
    decreases a.len(),
{
    let s = a + seq![w] + b;
    if a.len() == 0 {
        assert(s[0] == w);
        assert(s.drop_first() == b);
    } else {
        assert(s[0] == a[0]);
        assert(s.drop_first() == a.drop_first() + seq![w] + b);
        if is_white(a[0]) {
            lemma_split_at_white(a.drop_first(), w, b, seq![]);
        } else {
            lemma_split_at_white(a.drop_first(), w, b, cur.push(a[0]));
        }
    }
}

/// Setting parentheses apart works piece by piece.
pub proof fn lemma_spaced_concat(a: Seq<char>, b: Seq<char>)
    ensures
        spaced(a + b) == spaced(a) + spaced(b),
    decreases b.len(),
{
    if b.len() == 0 {
        assert(a + b == a);
        assert(spaced(b) == Seq::<char>::empty());
        assert(spaced(a) + spaced(b) == spaced(a));
    } else {
        lemma_spaced_concat(a, b.drop_last());
        assert((a + b).drop_last() == a + b.drop_last());
        assert((a + b).last() == b.last());
    }
}

/// The tokens of a program are `(`, the tokens of its text, and `)`; each token
/// is non-empty and holds no white space.
pub proof fn lemma_tokenise_shape(input: Seq<char>)
    ensures
        spec_tokenise(input) == seq![seq!['(']] + split_white(spaced(input)) + seq![seq![')']],
        all_words(spec_tokenise(input)),
{
    let open = seq!['('];
    let close = seq![')'];
    lemma_spaced_concat(open + input, close);
    lemma_spaced_concat(open, input);
    assert(open.drop_last() == Seq::<char>::empty());
    assert(spaced(Seq::<char>::empty()) == Seq::<char>::empty());
    assert(spaced(open) =~= seq![' ', '(', ' ']);
    assert(close.drop_last() == Seq::<char>::empty());
    assert(spaced(close) =~= seq![' ', ')', ' ']);
    let mid = spaced(input);
    let all = spaced(open + input + close);
    assert(all == seq![' ', '(', ' '] + mid + seq![' ', ')', ' ']);
    // split off the leading blank, the opening parenthesis, and the closing one
    let e: Seq<char> = Seq::empty();
    let rest1 = seq!['(', ' '] + mid + seq![' ', ')', ' '];
    assert(all =~= e + seq![' '] + rest1);
    lemma_split_at_white(e, ' ', rest1, seq![]);
    let rest2 = mid + seq![' ', ')', ' '];
    assert(rest1 =~= seq!['('] + seq![' '] + rest2);
    lemma_split_at_white(seq!['('], ' ', rest2, seq![]);
    let tail = seq![')', ' '];
    assert(rest2 =~= mid + seq![' '] + tail);
    lemma_split_at_white(mid, ' ', tail, seq![]);
    assert(split_from(e, seq![]) == Seq::<Seq<char>>::empty());
    assert(split_from(seq!['('], seq![]) == seq![seq!['(']]) by {
        let o = seq!['('];
        assert(!is_white(o[0]));
        assert(o.drop_first() =~= Seq::<char>::empty());
        assert(Seq::<char>::empty().push('(') =~= o);
        assert(split_from(o, Seq::<char>::empty()) == split_from(Seq::<char>::empty(), o));
        assert(split_from(Seq::<char>::empty(), o) == flush(o));
    }
    assert(split_from(tail, seq![]) == seq![seq![')']]) by {
        let c = seq![')'];
        let sp = seq![' '];
        assert(!is_white(tail[0]));
        assert(tail.drop_first() =~= sp);
        assert(Seq::<char>::empty().push(')') =~= c);
        assert(split_from(tail, Seq::<char>::empty()) == split_from(sp, c));
        assert(sp.drop_first() =~= Seq::<char>::empty());
        assert(split_from(sp, c) == flush(c) + split_from(Seq::<char>::empty(), Seq::<char>::empty()));
        assert(split_from(Seq::<char>::empty(), Seq::<char>::empty()) == Seq::<Seq<char>>::empty());
        assert(flush(c) + Seq::<Seq<char>>::empty() =~= seq![c]);
    }
    assert(spec_tokenise(input) =~= seq![seq!['(']] + split_white(spaced(input)) + seq![seq![')']]);
    lemma_split_words(all, seq![]);
}

/// A program that reads without error reads as one list.
pub proof fn lemma_program_reads_as_list(input: Seq<char>)
    ensures
        spec_parse(spec_tokenise(input)) matches Ok((e, _)) ==> e is List,
{
    lemma_tokenise_shape(input);
    reveal_strlit("(");
    let ts = spec_tokenise(input);
    assert(ts[0] == seq!['(']);
    assert("("@ =~= seq!['(']);
    lemma_read_seq_consumes(ts.drop_first(), seq![]);
}


/// Evaluating numbers and booleans one after the other gives them back and
/// changes nothing.
pub proof fn lemma_forms_of_literals(
    g: nat,
    forms: Seq<OexpV>,
    acc: Seq<OexpV>,
    st: Seq<Map<Seq<char>, OexpV>>,
    ord: spec_fn(NumV, NumV) -> NumOrder,
)
    requires
        g >= 1,
        forall|i: int| 0 <= i < forms.len() ==> (#[trigger] forms[i] is Number) || forms[i] is Boolean,
    ensures
        sem_forms(g, forms, acc, st, ord) == Outcome::Done(Ok(acc + forms), st),
    decreases forms.len(),
{
    if forms.len() == 0 {
        assert(acc + forms == acc);
    } else {
        assert(forms[0] is Number || forms[0] is Boolean);
        lemma_literal(g, forms[0], st, ord);
        assert forall|i: int| 0 <= i < forms.drop_first().len() implies (
        #[trigger] forms.drop_first()[i] is Number) || forms.drop_first()[i] is Boolean by {
            assert(forms.drop_first()[i] == forms[i + 1]);
        }
        lemma_forms_of_literals(g, forms.drop_first(), acc.push(forms[0]), st, ord);
        assert(acc.push(forms[0]) + forms.drop_first() == acc + forms);
    }
}

/// `(n1 ... nk +)` gives the sum of the numbers and `(n1 ... nk *)` their
/// product, where `+` and `*` are bound as in the core model.
pub proof fn lemma_native_arithmetic(
    fuel: nat,
    nums: Seq<NumV>,
    st: Seq<Map<Seq<char>, OexpV>>,
    ord: spec_fn(NumV, NumV) -> NumOrder,
)
    requires
        fuel >= 3,
        spec_lookup(st, "+"@) == Some(OexpV::Function(Builtin::Add)),
        spec_lookup(st, "*"@) == Some(OexpV::Function(Builtin::Mul)),
    ensures
        sem_eval(
            fuel,
            OexpV::List(nums.map_values(|n: NumV| OexpV::Number(n)).push(OexpV::Symbol("+"@))),
            st,
            ord,
        ) == Outcome::Done(Ok(OexpV::Number(NumV::Sum(nums))), st),
        sem_eval(
            fuel,
            OexpV::List(nums.map_values(|n: NumV| OexpV::Number(n)).push(OexpV::Symbol("*"@))),
            st,
            ord,
        ) == Outcome::Done(Ok(OexpV::Number(NumV::Product(nums))), st),
{
    lemma_form_names();
    let args = nums.map_values(|n: NumV| OexpV::Number(n));
    let g = (fuel - 1) as nat;
    assert forall|i: int| 0 <= i < args.len() implies (#[trigger] args[i] is Number)
        || args[i] is Boolean by {}
    lemma_forms_of_literals(g, args, seq![], st, ord);
    assert(Seq::<OexpV>::empty() + args == args);
    assert(args.map_values(|a: OexpV| crate::semantics::num_of(a)) =~= nums);
    let plus = args.push(OexpV::Symbol("+"@));
    let times = args.push(OexpV::Symbol("*"@));
    assert(plus.drop_last() == args && plus.last() == OexpV::Symbol("+"@));
    assert(times.drop_last() == args && times.last() == OexpV::Symbol("*"@));
    assert(sem_eval(g, OexpV::Symbol("+"@), st, ord) == Outcome::<OexpV>::Done(
        Ok(OexpV::Function(Builtin::Add)),
        st,
    ));
    assert(sem_eval(g, OexpV::Symbol("*"@), st, ord) == Outcome::<OexpV>::Done(
        Ok(OexpV::Function(Builtin::Mul)),
        st,
    ));
    assert(sem_eval(fuel, OexpV::List(plus), st, ord) == sem_list(g, plus, st, ord));
    assert(sem_eval(fuel, OexpV::List(times), st, ord) == sem_list(g, times, st, ord));
}


/// Calling a function bound to `fname` on numbers and booleans evaluates its
/// body in a new innermost scope that binds each parameter to its argument,
/// and leaves the scopes as they were.
pub proof fn lemma_call_binds_parameters(
    fuel: nat,
    fname: Seq<char>,
    params: OexpV,
    body: OexpV,
    args: Seq<OexpV>,
    st: Seq<Map<Seq<char>, OexpV>>,
    ord: spec_fn(NumV, NumV) -> NumOrder,
)
    requires
        fuel >= 2,
        st.len() >= 1,
        builtin_form(OexpV::Symbol(fname)) is None,
        spec_lookup(st, fname) == Some(OexpV::FunctionDef(Box::new(params), Box::new(body))),
        param_names(params) matches Ok(ks) && ks.len() == args.len(),
        forall|i: int| 0 <= i < args.len() ==> (#[trigger] args[i] is Number) || args[i] is Boolean,
    ensures
        ({
            let ks = param_names(params)->Ok_0;
            let g = (fuel - 1) as nat;
            match sem_eval(g, body, st.push(bind_params(ks, args)), ord) {
                Outcome::Done(r, _) => sem_eval(
                    fuel,
                    OexpV::List(args.push(OexpV::Symbol(fname))),
                    st,
                    ord,
                ) == Outcome::Done(r, st),
                Outcome::Stuck => sem_eval(
                    fuel,
                    OexpV::List(args.push(OexpV::Symbol(fname))),
                    st,
                    ord,
                ) is Stuck,
                Outcome::OutOfFuel => sem_eval(
                    fuel,
                    OexpV::List(args.push(OexpV::Symbol(fname))),
                    st,
                    ord,
                ) is OutOfFuel,
            }
        }),
{
    let ks = param_names(params)->Ok_0;
    let g = (fuel - 1) as nat;
    let l = args.push(OexpV::Symbol(fname));
    assert(l.drop_last() == args && l.last() == OexpV::Symbol(fname));
    lemma_forms_of_literals(g, args, seq![], st, ord);
    assert(Seq::<OexpV>::empty() + args == args);
    assert(sem_eval(g, OexpV::Symbol(fname), st, ord) == Outcome::<OexpV>::Done(
        Ok(OexpV::FunctionDef(Box::new(params), Box::new(body))),
        st,
    ));
    let inner = st.push(bind_params(ks, args));
    lemma_eval_scopes(g, body, inner, ord);
    assert(inner.drop_last() == st);
    assert(sem_eval(fuel, OexpV::List(l), st, ord) == sem_list(g, l, st, ord));
    assert(sem_list(g, l, st, ord) == sem_call(g, params, body, args, st, ord));
}


/// The cases of `(subject verb object ?)` with fewer than three forms before
/// `?`: an operator error, with the scopes unchanged.
pub proof fn lemma_query_needs_three(
    g: nat,
    args: Seq<OexpV>,
    st: Seq<Map<Seq<char>, OexpV>>,
    ord: spec_fn(NumV, NumV) -> NumOrder,
)
    requires
        args.len() < 3,
    ensures
        sem_query(g, args, st, ord) matches Outcome::Done(Err(ErrV::Operator(_)), st2) && st2 == st,
{
}

/// The cases of a definition `(subject verb object .)`:
/// - without exactly three forms, or with a subject that is not a symbol, an
///   operator error, the object not evaluated and the scopes unchanged;
/// - with the verb `=`, the object's error passed through, or the subject given
///   back and bound in the innermost scope to the object's value;
/// - with another verb, no result (the form is not implemented).
pub proof fn lemma_define_cases(
    g: nat,
    args: Seq<OexpV>,
    st: Seq<Map<Seq<char>, OexpV>>,
    ord: spec_fn(NumV, NumV) -> NumOrder,
)
    ensures
        (args.len() != 3 || !(args[0] is Symbol)) ==> (sem_define(g, args, st, ord) matches Outcome::Done(
            Err(ErrV::Operator(_)),
            st2,
        ) && st2 == st),
        (args.len() == 3 && args[0] is Symbol && args[1] == OexpV::Symbol("="@)) ==> {
            &&& sem_eval(g, args[2], st, ord) matches Outcome::Done(Ok(v), st1) ==> sem_define(
                g,
                args,
                st,
                ord,
            ) == Outcome::Done(Ok(args[0]), spec_define(st1, args[0]->Symbol_0, v))
            &&& sem_eval(g, args[2], st, ord) matches Outcome::Done(Err(e), st1) ==> sem_define(
                g,
                args,
                st,
                ord,
            ) == Outcome::<OexpV>::Done(Err(e), st1)
            &&& !(sem_eval(g, args[2], st, ord) is Done) ==> !(sem_define(g, args, st, ord) is Done)
        },
        (args.len() == 3 && args[0] is Symbol && args[1] != OexpV::Symbol("="@)) ==> sem_define(
            g,
            args,
            st,
            ord,
        ) is Stuck,
{
}

/// The cases of a conditional `(subject if object rem... ?)`: the object is
/// evaluated first;
/// - true: the subject is evaluated in the scopes the test left, `rem` unread;
/// - false: the subject is not evaluated; with `else f` the form `f` is
///   evaluated; with nothing after the test, or `else` alone, or a symbol other
///   than `else` and `or`, an operator error; with `or`, no result (not
///   implemented); with a form that is not a symbol, a reader error;
/// - another value: an operator error; an error: passed through.
pub proof fn lemma_if_cases(
    g: nat,
    subject: OexpV,
    object: OexpV,
    rem: Seq<OexpV>,
    st: Seq<Map<Seq<char>, OexpV>>,
    ord: spec_fn(NumV, NumV) -> NumOrder,
)
    ensures
        match sem_eval(g, object, st, ord) {
            Outcome::Done(Ok(OexpV::Boolean(true)), st1) => sem_if(g, subject, object, rem, st, ord)
                == sem_eval(g, subject, st1, ord),
            Outcome::Done(Ok(OexpV::Boolean(false)), st1) => if rem.len() >= 2 && rem[0]
                == OexpV::Symbol("else"@) {
                sem_if(g, subject, object, rem, st, ord) == sem_eval(g, rem[1], st1, ord)
            } else if rem.len() > 0 && !(rem[0] is Symbol) {
                sem_if(g, subject, object, rem, st, ord) matches Outcome::Done(
                    Err(ErrV::Reader(_)),
                    st2,
                ) && st2 == st1
            } else if rem.len() > 0 && rem[0] == OexpV::Symbol("or"@) {
                sem_if(g, subject, object, rem, st, ord) is Stuck
            } else {
                sem_if(g, subject, object, rem, st, ord) matches Outcome::Done(
                    Err(ErrV::Operator(_)),
                    st2,
                ) && st2 == st1
            },
            Outcome::Done(Ok(_), st1) => sem_if(g, subject, object, rem, st, ord) matches Outcome::Done(
                Err(ErrV::Operator(_)),
                st2,
            ) && st2 == st1,
            Outcome::Done(Err(e), st1) => sem_if(g, subject, object, rem, st, ord)
                == Outcome::<OexpV>::Done(Err(e), st1),
            Outcome::Stuck => sem_if(g, subject, object, rem, st, ord) is Stuck,
            Outcome::OutOfFuel => sem_if(g, subject, object, rem, st, ord) is OutOfFuel,
        },
{
    reveal_strlit("else");
    reveal_strlit("or");
    assert("else"@.len() != "or"@.len());
}


/// The form holds no symbol `.` at any depth of nested lists.
pub open spec fn no_dot(e: OexpV) -> bool
    decreases e, 1nat,
{
    match e {
        OexpV::Symbol(s) => s != "."@,
        OexpV::List(l) => all_no_dot(l),
        _ => true,
    }
}

pub open spec fn all_no_dot(s: Seq<OexpV>) -> bool
    decreases s, 0nat,
{
    if s.len() == 0 {
        true
    } else {
        all_no_dot(s.drop_last()) && no_dot(s.last())
    }
}

proof fn lemma_all_no_dot(s: Seq<OexpV>)
    ensures
        all_no_dot(s) <==> forall|i: int| 0 <= i < s.len() ==> #[trigger] no_dot(s[i]),
    decreases s.len(),
{
    if s.len() > 0 {
        lemma_all_no_dot(s.drop_last());
        if forall|i: int| 0 <= i < s.len() ==> #[trigger] no_dot(s[i]) {
            assert forall|i: int| 0 <= i < s.drop_last().len() implies #[trigger] no_dot(
                s.drop_last()[i],
            ) by {
                assert(s.drop_last()[i] == s[i]);
            }
            assert(no_dot(s[s.len() - 1]));
        }
        if all_no_dot(s) {
            assert forall|i: int| 0 <= i < s.len() implies #[trigger] no_dot(s[i]) by {
                if i < s.len() - 1 {
                    assert(s.drop_last()[i] == s[i]);
                } else {
                    assert(s[i] == s.last());
                }
            }
        }
    }
}

/// Evaluating a program that holds no definition form `.` leaves the scopes
/// exactly as they were, whether it gives a value or an error: definitions that
/// the bodies of called functions make go to their own scopes, which are closed.
pub proof fn lemma_no_dot_keeps_model(
    f: nat,
    e: OexpV,
    st: Seq<Map<Seq<char>, OexpV>>,
    ord: spec_fn(NumV, NumV) -> NumOrder,
)
    requires
        st.len() >= 1,
        no_dot(e),
    ensures
        sem_eval(f, e, st, ord) matches Outcome::Done(_, st2) ==> st2 == st,
    decreases f, 0nat, 0nat,
{
    if f > 0 {
        match e {
            OexpV::List(l) => {
                lemma_all_no_dot(l);
                lemma_list_no_dot((f - 1) as nat, l, st, ord);
            },
            _ => {},
        }
    }
}

proof fn lemma_forms_no_dot(
    g: nat,
    forms: Seq<OexpV>,
    acc: Seq<OexpV>,
    st: Seq<Map<Seq<char>, OexpV>>,
    ord: spec_fn(NumV, NumV) -> NumOrder,
)
    requires
        st.len() >= 1,
        forall|i: int| 0 <= i < forms.len() ==> #[trigger] no_dot(forms[i]),
    ensures
        sem_forms(g, forms, acc, st, ord) matches Outcome::Done(_, st2) ==> st2 == st,
    decreases g, 1nat, forms.len(),
{
    if forms.len() > 0 {
        assert(no_dot(forms[0]));
        lemma_no_dot_keeps_model(g, forms[0], st, ord);
        match sem_eval(g, forms[0], st, ord) {
            Outcome::Done(Ok(v), st1) => {
                assert forall|i: int| 0 <= i < forms.drop_first().len() implies #[trigger] no_dot(
                    forms.drop_first()[i],
                ) by {
                    assert(forms.drop_first()[i] == forms[i + 1]);
                }
                lemma_forms_no_dot(g, forms.drop_first(), acc.push(v), st1, ord);
            },
            _ => {},
        }
    }
}

proof fn lemma_if_no_dot(
    g: nat,
    subject: OexpV,
    object: OexpV,
    rem: Seq<OexpV>,
    st: Seq<Map<Seq<char>, OexpV>>,
    ord: spec_fn(NumV, NumV) -> NumOrder,
)
    requires
        st.len() >= 1,
        no_dot(subject),
        no_dot(object),
        forall|i: int| 0 <= i < rem.len() ==> #[trigger] no_dot(rem[i]),
    ensures
        sem_if(g, subject, object, rem, st, ord) matches Outcome::Done(_, st2) ==> st2 == st,
    decreases g, 2nat, 0nat,
{
    lemma_no_dot_keeps_model(g, object, st, ord);
    match sem_eval(g, object, st, ord) {
        Outcome::Done(Ok(OexpV::Boolean(true)), st1) => {
            lemma_no_dot_keeps_model(g, subject, st1, ord);
        },
        Outcome::Done(Ok(OexpV::Boolean(false)), st1) => {
            if rem.len() >= 2 {
                assert(no_dot(rem[1]));
                lemma_no_dot_keeps_model(g, rem[1], st1, ord);
            }
        },
        _ => {},
    }
}

proof fn lemma_query_no_dot(
    g: nat,
    args: Seq<OexpV>,
    st: Seq<Map<Seq<char>, OexpV>>,
    ord: spec_fn(NumV, NumV) -> NumOrder,
)
    requires
        st.len() >= 1,
        forall|i: int| 0 <= i < args.len() ==> #[trigger] no_dot(args[i]),
    ensures
        sem_query(g, args, st, ord) matches Outcome::Done(_, st2) ==> st2 == st,
    decreases g, 3nat, 0nat,
{
    if args.len() >= 3 {
        assert(no_dot(args[0]) && no_dot(args[2]));
        assert forall|i: int| 0 <= i < args.skip(3).len() implies #[trigger] no_dot(args.skip(3)[i]) by {
            assert(args.skip(3)[i] == args[i + 3]);
        }
        lemma_if_no_dot(g, args[0], args[2], args.skip(3), st, ord);
    }
}

proof fn lemma_call_no_dot(
    g: nat,
    params: OexpV,
    body: OexpV,
    args: Seq<OexpV>,
    st: Seq<Map<Seq<char>, OexpV>>,
    ord: spec_fn(NumV, NumV) -> NumOrder,
)
    requires
        st.len() >= 1,
        forall|i: int| 0 <= i < args.len() ==> #[trigger] no_dot(args[i]),
    ensures
        sem_call(g, params, body, args, st, ord) matches Outcome::Done(_, st2) ==> st2 == st,
    decreases g, 5nat, 0nat,
{
    match param_names(params) {
        Ok(ks) => {
            if ks.len() == args.len() {
                lemma_forms_no_dot(g, args, seq![], st, ord);
                match sem_forms(g, args, seq![], st, ord) {
                    Outcome::Done(Ok(vs), st1) => {
                        let inner = st1.push(bind_params(ks, vs));
                        lemma_eval_scopes(g, body, inner, ord);
                        assert(inner.drop_last() == st1);
                    },
                    _ => {},
                }
            }
        },
        _ => {},
    }
}

proof fn lemma_list_no_dot(
    g: nat,
    l: Seq<OexpV>,
    st: Seq<Map<Seq<char>, OexpV>>,
    ord: spec_fn(NumV, NumV) -> NumOrder,
)
    requires
        st.len() >= 1,
        forall|i: int| 0 <= i < l.len() ==> #[trigger] no_dot(l[i]),
    ensures
        sem_list(g, l, st, ord) matches Outcome::Done(_, st2) ==> st2 == st,
    decreases g, 6nat, 0nat,
{
    if l.len() > 0 {
        let last = l.last();
        let args = l.drop_last();
        assert(no_dot(l[l.len() - 1]));
        assert forall|i: int| 0 <= i < args.len() implies #[trigger] no_dot(args[i]) by {
            assert(args[i] == l[i]);
        }
        match builtin_form(last) {
            Some(Form::Query) => lemma_query_no_dot(g, args, st, ord),
            Some(Form::Define) => {
                assert(last == OexpV::Symbol("."@));
            },
            Some(Form::FnDef) => {},
            Some(Form::Subject) => {
                if args.len() > 0 {
                    assert(no_dot(args[0]));
                    lemma_no_dot_keeps_model(g, args[0], st, ord);
                }
            },
            None => {
                lemma_no_dot_keeps_model(g, last, st, ord);
                match sem_eval(g, last, st, ord) {
                    Outcome::Done(Ok(f), st1) => match f {
                        OexpV::Function(_) => lemma_forms_no_dot(g, args, seq![], st1, ord),
                        OexpV::FunctionDef(p, b) => lemma_call_no_dot(g, *p, *b, args, st1, ord),
                        _ => {},
                    },
                    _ => {},
                }
            },
        }
    }
}


/// `s` without its white characters.
pub open spec fn strip_white(s: Seq<char>) -> Seq<char>
    decreases s.len(),
{
    if s.len() == 0 {
        seq![]
    } else {
        (if is_white(s[0]) {
            Seq::<char>::empty()
        } else {
            seq![s[0]]
        }) + strip_white(s.drop_first())
    }
}

/// The words `ws` written one after the other.
pub open spec fn concat_all(ws: Seq<Seq<char>>) -> Seq<char>
    decreases ws.len(),
{
    if ws.len() == 0 {
        seq![]
    } else {
        ws[0] + concat_all(ws.drop_first())
    }
}

proof fn lemma_concat_all_add(a: Seq<Seq<char>>, b: Seq<Seq<char>>)
    ensures
        concat_all(a + b) == concat_all(a) + concat_all(b),
    decreases a.len(),
{
    if a.len() == 0 {
        assert(a + b == b);
        assert(concat_all(a) + concat_all(b) =~= concat_all(b));
    } else {
        lemma_concat_all_add(a.drop_first(), b);
        assert((a + b)[0] == a[0]);
        assert((a + b).drop_first() == a.drop_first() + b);
        assert(concat_all(a + b) =~= concat_all(a) + concat_all(b));
    }
}

proof fn lemma_strip_add(a: Seq<char>, b: Seq<char>)
    ensures
        strip_white(a + b) == strip_white(a) + strip_white(b),
    decreases a.len(),
{
    if a.len() == 0 {
        assert(a + b == b);
        assert(strip_white(a) + strip_white(b) =~= strip_white(b));
    } else {
        lemma_strip_add(a.drop_first(), b);
        assert((a + b)[0] == a[0]);
        assert((a + b).drop_first() == a.drop_first() + b);
        assert(strip_white(a + b) =~= strip_white(a) + strip_white(b));
    }
}

proof fn lemma_single(c: char)
    ensures
        strip_white(seq![c]) == (if is_white(c) {
            Seq::<char>::empty()
        } else {
            seq![c]
        }),
        spaced(seq![c]) == set_apart(c),
{
    assert(seq![c].drop_first() =~= Seq::<char>::empty());
    assert(strip_white(Seq::<char>::empty()) == Seq::<char>::empty());
    assert(strip_white(seq![c]) =~= (if is_white(c) {
        Seq::<char>::empty()
    } else {
        seq![c]
    }));
    assert(seq![c].drop_last() =~= Seq::<char>::empty());
    assert(spaced(Seq::<char>::empty()) == Seq::<char>::empty());
    assert(seq![c].last() == c);
    assert(spaced(seq![c]) =~= set_apart(c));
}

proof fn lemma_pair(c: char, d: char)
    ensures
        spaced(seq![c, d]) == set_apart(c) + set_apart(d),
{
    lemma_single(c);
    lemma_single(d);
    assert(seq![c] + seq![d] =~= seq![c, d]);
    lemma_spaced_concat(seq![c], seq![d]);
}

proof fn lemma_concat_flush(cur: Seq<char>)
    ensures
        concat_all(flush(cur)) == cur,
{
    assert(concat_all(Seq::<Seq<char>>::empty()) == Seq::<char>::empty());
    if cur.len() > 0 {
        assert(flush(cur).drop_first() =~= Seq::<Seq<char>>::empty());
        assert(concat_all(flush(cur)) =~= cur);
    }
}

proof fn lemma_split_concat(s: Seq<char>, cur: Seq<char>)
    ensures
        concat_all(split_from(s, cur)) == cur + strip_white(s),
    decreases s.len(),
{
    lemma_concat_flush(cur);
    if s.len() == 0 {
        assert(strip_white(s) == Seq::<char>::empty());
        assert(concat_all(flush(cur)) =~= cur + strip_white(s));
    } else if is_white(s[0]) {
        lemma_split_concat(s.drop_first(), seq![]);
        lemma_concat_all_add(flush(cur), split_from(s.drop_first(), seq![]));
        assert(Seq::<char>::empty() + strip_white(s.drop_first()) =~= strip_white(s.drop_first()));
        assert(concat_all(split_from(s, cur)) =~= cur + strip_white(s));
    } else {
        lemma_split_concat(s.drop_first(), cur.push(s[0]));
        assert(concat_all(split_from(s, cur)) =~= cur + strip_white(s));
    }
}

proof fn lemma_strip_spaced(x: Seq<char>)
    ensures
        strip_white(spaced(x)) == strip_white(x),
    decreases x.len(),
{
    if x.len() > 0 {
        let c = x.last();
        lemma_strip_spaced(x.drop_last());
        lemma_strip_add(spaced(x.drop_last()), set_apart(c));
        lemma_strip_add(x.drop_last(), seq![c]);
        assert(x.drop_last() + seq![c] == x);
        lemma_single(c);
        if c == '(' || c == ')' {
            lemma_single(' ');
            assert(set_apart(c) =~= seq![' '] + seq![c] + seq![' ']);
            lemma_strip_add(seq![' '] + seq![c], seq![' ']);
            lemma_strip_add(seq![' '], seq![c]);
            assert(strip_white(set_apart(c)) =~= seq![c]);
        }
    } else {
        assert(spaced(x) == Seq::<char>::empty());
    }
}

/// No character other than white space is lost, added or reordered: the
/// tokens, written one after the other, are `(`, the non-white characters of
/// the input, and `)`.
pub proof fn lemma_tokens_concat(input: Seq<char>)
    ensures
        concat_all(spec_tokenise(input)) == seq!['('] + strip_white(input) + seq![')'],
{
    let full = seq!['('] + input + seq![')'];
    lemma_split_concat(spaced(full), seq![]);
    lemma_strip_spaced(full);
    lemma_strip_add(seq!['('] + input, seq![')']);
    lemma_strip_add(seq!['('], input);
    lemma_single('(');
    lemma_single(')');
    assert(Seq::<char>::empty() + strip_white(full) == strip_white(full));
}

/// A run of white characters.
pub open spec fn all_white(w: Seq<char>) -> bool {
    forall|i: int| 0 <= i < w.len() ==> is_white(#[trigger] w[i])
}

proof fn lemma_spaced_white(w: Seq<char>)
    requires
        all_white(w),
    ensures
        spaced(w) == w,
    decreases w.len(),
{
    if w.len() > 0 {
        assert(is_white(w[w.len() - 1]));
        assert(all_white(w.drop_last()));
        lemma_spaced_white(w.drop_last());
        assert(w.drop_last() + seq![w.last()] == w);
    } else {
        assert(spaced(w) =~= w);
    }
}

proof fn lemma_split_skips_white(w: Seq<char>, y: Seq<char>)
    requires
        all_white(w),
    ensures
        split_from(w + y, seq![]) == split_from(y, seq![]),
    decreases w.len(),
{
    if w.len() == 0 {
        assert(w + y == y);
    } else {
        assert((w + y)[0] == w[0]);
        assert((w + y).drop_first() == w.drop_first() + y);
        assert(all_white(w.drop_first()));
        lemma_split_skips_white(w.drop_first(), y);
        assert(flush(Seq::<char>::empty()) + split_from(y, seq![]) == split_from(y, seq![]));
    }
}

/// Splitting at a non-empty run of white characters splits the two sides apart.
pub proof fn lemma_split_at_white_run(x: Seq<char>, w: Seq<char>, y: Seq<char>, cur: Seq<char>)
    requires
        w.len() > 0,
        all_white(w),
    ensures
        split_from(x + w + y, cur) == split_from(x, cur) + split_from(y, seq![]),
{
    assert(is_white(w[0]));
    assert(all_white(w.drop_first()));
    assert(x + w + y == x + seq![w[0]] + (w.drop_first() + y));
    lemma_split_at_white(x, w[0], w.drop_first() + y, cur);
    lemma_split_skips_white(w.drop_first(), y);
}

/// The tokens of `a`, a run of white space and `b` depend on `a` and `b` only.
pub proof fn lemma_tokens_white_run(a: Seq<char>, w1: Seq<char>, w2: Seq<char>, b: Seq<char>)
    requires
        w1.len() > 0,
        all_white(w1),
        w2.len() > 0,
        all_white(w2),
    ensures
        spec_tokenise(a + w1 + b) == spec_tokenise(a + w2 + b),
{
    let x = spaced(seq!['('] + a);
    let y = spaced(b + seq![')']);
    assert forall|w: Seq<char>| w.len() > 0 && all_white(w) implies spec_tokenise(a + w + b) == split_from(
        x,
        seq![],
    ) + split_from(y, seq![]) by {
        assert(seq!['('] + (a + w + b) + seq![')'] == (seq!['('] + a) + w + (b + seq![')']));
        lemma_spaced_concat((seq!['('] + a) + w, b + seq![')']);
        lemma_spaced_concat(seq!['('] + a, w);
        lemma_spaced_white(w);
        lemma_split_at_white_run(x, w, y, seq![]);
    }
}

/// A space set beside a parenthesis does not change the tokens.
#[verifier::rlimit(60)]
pub proof fn lemma_tokens_space_by_paren(a: Seq<char>, p: char, b: Seq<char>)
    requires
        p == '(' || p == ')',
    ensures
        spec_tokenise(a + seq![' ', p] + b) == spec_tokenise(a + seq![p] + b),
        spec_tokenise(a + seq![p, ' '] + b) == spec_tokenise(a + seq![p] + b),
{
    let x = spaced(seq!['('] + a);
    let y = spaced(b + seq![')']);
    let one = seq![' '];
    let two = seq![' ', ' '];
    assert(all_white(one) && all_white(two));
    lemma_spaced_concat(seq![p], b + seq![')']);
    lemma_spaced_concat(seq![' ', p], b + seq![')']);
    lemma_spaced_concat(seq![p, ' '], b + seq![')']);
    lemma_single(p);
    lemma_single(' ');
    lemma_pair(' ', p);
    lemma_pair(p, ' ');
    assert(spaced(seq![p]) =~= seq![' ', p, ' ']);
    assert(spaced(seq![' ', p]) =~= seq![' ', ' ', p, ' ']);
    assert(spaced(seq![p, ' ']) =~= seq![' ', p, ' ', ' ']);
    // the three programs, set apart
    let t0 = seq![p, ' '] + y;
    let s_plain = spaced(seq!['('] + (a + seq![p] + b) + seq![')']);
    let s_before = spaced(seq!['('] + (a + seq![' ', p] + b) + seq![')']);
    let s_after = spaced(seq!['('] + (a + seq![p, ' '] + b) + seq![')']);
    assert(seq!['('] + (a + seq![p] + b) + seq![')'] == (seq!['('] + a) + (seq![p] + (b + seq![')'])));
    assert(seq!['('] + (a + seq![' ', p] + b) + seq![')'] == (seq!['('] + a) + (seq![' ', p] + (b
        + seq![')'])));
    assert(seq!['('] + (a + seq![p, ' '] + b) + seq![')'] == (seq!['('] + a) + (seq![p, ' '] + (b
        + seq![')'])));
    lemma_spaced_concat(seq!['('] + a, seq![p] + (b + seq![')']));
    lemma_spaced_concat(seq!['('] + a, seq![' ', p] + (b + seq![')']));
    lemma_spaced_concat(seq!['('] + a, seq![p, ' '] + (b + seq![')']));
    assert(s_plain == x + one + t0);
    assert(s_before == x + two + t0);
    lemma_split_at_white_run(x, one, t0, seq![]);
    lemma_split_at_white_run(x, two, t0, seq![]);
    let x2 = x + seq![' ', p];
    assert(s_plain == x2 + one + y);
    assert(s_after == x2 + two + y);
    lemma_split_at_white_run(x2, one, y, seq![]);
    lemma_split_at_white_run(x2, two, y, seq![]);
}

/// The tokens of `a`, a white character and `b` are those of `a` without their
/// closing `)` followed by those of `b` without their opening `(`.
pub proof fn lemma_tokens_join(a: Seq<char>, w: char, b: Seq<char>)
    requires
        is_white(w),
    ensures
        spec_tokenise(a + seq![w] + b) == spec_tokenise(a).drop_last() + spec_tokenise(b).drop_first(),
{
    lemma_tokenise_shape(a);
    lemma_tokenise_shape(b);
    lemma_tokenise_shape(a + seq![w] + b);
    lemma_spaced_concat(a + seq![w], b);
    lemma_spaced_concat(a, seq![w]);
    lemma_single(w);
    assert(spaced(seq![w]) =~= seq![w]);
    lemma_split_at_white(spaced(a), w, spaced(b), seq![]);
    let o = seq![seq!['(']];
    let c = seq![seq![')']];
    let sa = split_white(spaced(a));
    let sb = split_white(spaced(b));
    assert((o + sa + c).drop_last() =~= o + sa);
    assert((o + sb + c).drop_first() =~= sb + c);
    assert(o + (sa + sb) + c =~= (o + sa) + (sb + c));
}


/// What a token adds to the nesting depth: `(` opens, `)` closes.
pub open spec fn paren_weight(t: Seq<char>) -> int {
    if t == "("@ {
        1
    } else if t == ")"@ {
        -1
    } else {
        0
    }
}

/// The nesting depth after the tokens `ts`: opening minus closing parentheses.
pub open spec fn depth(ts: Seq<Seq<char>>) -> int
    decreases ts.len(),
{
    if ts.len() == 0 {
        0
    } else {
        depth(ts.drop_last()) + paren_weight(ts.last())
    }
}

/// The first `k` tokens are complete forms followed by the `)` that closes
/// them: the depth goes below zero first after token `k`.
pub open spec fn closes_at(ts: Seq<Seq<char>>, k: int) -> bool {
    &&& 0 < k <= ts.len()
    &&& depth(ts.take(k)) == -1
    &&& forall|j: int| 0 <= j < k ==> depth(#[trigger] ts.take(j)) >= 0
}

/// The first `k` tokens are one complete form: a token that is not a
/// parenthesis, or a `(` with the tokens up to the `)` that brings the depth
/// back to zero.
pub open spec fn one_form_at(ts: Seq<Seq<char>>, k: int) -> bool {
    &&& 0 < k <= ts.len()
    &&& ts[0] != ")"@
    &&& ts[0] != "("@ ==> k == 1
    &&& ts[0] == "("@ ==> depth(ts.take(k)) == 0 && forall|j: int|
        0 < j < k ==> depth(#[trigger] ts.take(j)) > 0
}

proof fn lemma_parens_differ()
    ensures
        "("@ != ")"@,
{
    reveal_strlit("(");
    reveal_strlit(")");
    assert("("@[0] != ")"@[0]);
}

proof fn lemma_depth_add(a: Seq<Seq<char>>, b: Seq<Seq<char>>)
    ensures
        depth(a + b) == depth(a) + depth(b),
    decreases b.len(),
{
    if b.len() == 0 {
        assert(a + b == a);
    } else {
        lemma_depth_add(a, b.drop_last());
        assert((a + b).drop_last() == a + b.drop_last());
        assert((a + b).last() == b.last());
    }
}

proof fn lemma_depth_single(x: Seq<char>)
    ensures
        depth(seq![x]) == paren_weight(x),
        depth(Seq::<Seq<char>>::empty()) == 0,
{
    let e = Seq::<Seq<char>>::empty();
    assert(depth(e) == 0);
    assert(seq![x].drop_last() =~= e);
    assert(seq![x].last() == x);
    assert(depth(seq![x]) == depth(seq![x].drop_last()) + paren_weight(seq![x].last()));
}

/// The depth after `j + 1` tokens, from the depth after the first one.
proof fn lemma_depth_front(ts: Seq<Seq<char>>, j: int)
    requires
        0 <= j < ts.len(),
    ensures
        depth(ts.take(j + 1)) == paren_weight(ts[0]) + depth(ts.drop_first().take(j)),
{
    assert(ts.take(j + 1) == seq![ts[0]] + ts.drop_first().take(j));
    lemma_depth_add(seq![ts[0]], ts.drop_first().take(j));
    lemma_depth_single(ts[0]);
}

/// The depth after `m + j` tokens, from the depth after the first `m`.
proof fn lemma_depth_split(ts: Seq<Seq<char>>, m: int, j: int)
    requires
        0 <= m <= ts.len(),
        0 <= j <= ts.len() - m,
    ensures
        depth(ts.take(m + j)) == depth(ts.take(m)) + depth(ts.skip(m).take(j)),
{
    assert(ts.take(m + j) == ts.take(m) + ts.skip(m).take(j));
    lemma_depth_add(ts.take(m), ts.skip(m).take(j));
}

proof fn lemma_depth_step(ts: Seq<Seq<char>>, j: int)
    requires
        0 <= j < ts.len(),
    ensures
        depth(ts.take(j + 1)) == depth(ts.take(j)) + paren_weight(ts[j]),
{
    assert(ts.take(j + 1).drop_last() == ts.take(j));
}

/// Where a `(` is closed within `k` tokens, the first point at which the depth
/// comes back to zero lies before `k`.
proof fn lemma_first_zero(ts: Seq<Seq<char>>, k: int, j: int) -> (m: int)
    requires
        ts.len() > 0,
        ts[0] == "("@,
        closes_at(ts, k),
        1 <= j < k,
        forall|i: int| 0 < i <= j ==> depth(#[trigger] ts.take(i)) > 0,
    ensures
        j < m < k,
        depth(ts.take(m)) == 0,
        forall|i: int| 0 < i < m ==> depth(#[trigger] ts.take(i)) > 0,
    decreases k - j,
{
    lemma_depth_step(ts, j);
    assert(depth(ts.take(j)) > 0);
    if j + 1 == k {
        assert(false);
        j + 1
    } else {
        assert(depth(ts.take(j + 1)) >= 0);
        if depth(ts.take(j + 1)) == 0 {
            j + 1
        } else {
            lemma_first_zero(ts, k, j + 1)
        }
    }
}

/// Reading one expression succeeds exactly on one complete form at the front,
/// and consumes exactly that form.
pub proof fn lemma_parse_one_form(ts: Seq<Seq<char>>)
    ensures
        spec_parse(ts) matches Ok((_, rest)) ==> rest == ts.skip(ts.len() - rest.len()) && one_form_at(
            ts,
            ts.len() - rest.len(),
        ),
        forall|k: int| #[trigger] one_form_at(ts, k) ==> (spec_parse(ts) matches Ok((_, rest)) && rest
            == ts.skip(k)),
        spec_parse(ts) matches Err(e) ==> e is Reader,
    decreases ts.len(), 0nat,
{
    lemma_parens_differ();
    if ts.len() > 0 {
        assert(ts.take(1) == seq![ts[0]]);
        lemma_depth_single(ts[0]);
        assert(ts.take(0) =~= Seq::<Seq<char>>::empty());
        if ts[0] == "("@ {
            let t = ts.drop_first();
            lemma_read_seq_closes(t, seq![]);
            match spec_read_seq(t, seq![]) {
                Ok((e, rest)) => {
                    let k2 = t.len() - rest.len();
                    assert forall|j: int| 0 < j < k2 + 1 implies depth(#[trigger] ts.take(j)) > 0 by {
                        lemma_depth_front(ts, j - 1);
                        assert(depth(t.take(j - 1)) >= 0);
                    }
                    lemma_depth_front(ts, k2);
                    assert(t.skip(k2) == ts.skip(k2 + 1));
                },
                _ => {},
            }
            assert forall|k: int| #[trigger] one_form_at(ts, k) implies (spec_parse(ts) matches Ok((_, rest))
                && rest == ts.skip(k)) by {
                assert(closes_at(t, k - 1)) by {
                    lemma_depth_front(ts, k - 1);
                    assert forall|j: int| 0 <= j < k - 1 implies depth(#[trigger] t.take(j)) >= 0 by {
                        lemma_depth_front(ts, j);
                        if j == 0 {
                            assert(t.take(0).len() == 0);
                        } else {
                            assert(depth(ts.take(j + 1)) > 0);
                        }
                    }
                }
                assert(t.skip(k - 1) == ts.skip(k));
            }
        } else if ts[0] == ")"@ {
        } else {
            assert(ts.drop_first() == ts.skip(1));
            assert(depth(ts.take(1)) == paren_weight(ts[0]));
        }
    }
}

/// Reading the rest of a list succeeds exactly where the tokens are complete
/// forms followed by the `)` that closes the list, and consumes exactly those;
/// where it fails, the error is a reader error.
pub proof fn lemma_read_seq_closes(ts: Seq<Seq<char>>, acc: Seq<OexpV>)
    ensures
        spec_read_seq(ts, acc) matches Ok((_, rest)) ==> rest == ts.skip(ts.len() - rest.len())
            && closes_at(ts, ts.len() - rest.len()),
        forall|k: int| #[trigger] closes_at(ts, k) ==> (spec_read_seq(ts, acc) matches Ok((_, rest))
            && rest == ts.skip(k)),
        spec_read_seq(ts, acc) matches Err(e) ==> e is Reader,
    decreases ts.len(), 1nat,
{
    lemma_parens_differ();
    if ts.len() > 0 {
        assert(ts.take(1) == seq![ts[0]]);
        lemma_depth_single(ts[0]);
        assert(ts.take(0) =~= Seq::<Seq<char>>::empty());
        assert(ts.take(0).len() == 0);
        if ts[0] == ")"@ {
            assert(ts.drop_first() == ts.skip(1));
            assert forall|k: int| #[trigger] closes_at(ts, k) implies (spec_read_seq(ts, acc) matches Ok((_, rest))
                && rest == ts.skip(k)) by {
                if k > 1 {
                    assert(depth(ts.take(1)) >= 0);
                }
            }
        } else {
            lemma_parse_one_form(ts);
            match spec_parse(ts) {
                Ok((x, r)) => {
                    let m = ts.len() - r.len();
                    lemma_read_seq_closes(r, acc.push(x));
                    match spec_read_seq(r, acc.push(x)) {
                        Ok((e, rest)) => {
                            let k2 = r.len() - rest.len();
                            assert(r.skip(k2) == ts.skip(m + k2));
                            lemma_depth_split(ts, m, k2);
                            assert forall|j: int| 0 <= j < m + k2 implies depth(#[trigger] ts.take(j)) >= 0 by {
                                if j < m {
                                    if ts[0] == "("@ {
                                        if j > 0 {
                                            assert(depth(ts.take(j)) > 0);
                                        }
                                    }
                                } else {
                                    lemma_depth_split(ts, m, j - m);
                                    assert(depth(r.take(j - m)) >= 0);
                                }
                            }
                        },
                        _ => {},
                    }
                    assert forall|k: int| #[trigger] closes_at(ts, k) implies (spec_read_seq(ts, acc) matches Ok((_, rest))
                        && rest == ts.skip(k)) by {
                        // the first form ends before the closing parenthesis
                        assert(m < k) by {
                            if m >= k {
                                if ts[0] == "("@ {
                                    if k < m {
                                        assert(depth(ts.take(k)) > 0);
                                    }
                                } else {
                                    assert(depth(ts.take(1)) == 0);
                                }
                            }
                        }
                        lemma_depth_split(ts, m, k - m);
                        assert forall|j: int| 0 <= j < k - m implies depth(#[trigger] r.take(j)) >= 0 by {
                            lemma_depth_split(ts, m, j);
                            assert(depth(ts.take(m + j)) >= 0);
                        }
                        assert(closes_at(r, k - m));
                        assert(r.skip(k - m) == ts.skip(k));
                    }
                },
                Err(_) => {
                    assert forall|k: int| #[trigger] closes_at(ts, k) implies false by {
                        if ts[0] == "("@ {
                            let m = lemma_first_zero(ts, k, 1);
                            assert(one_form_at(ts, m));
                        } else {
                            assert(one_form_at(ts, 1));
                        }
                    }
                },
            }
        }
    }
}


/// The tokens of a program's text, between the `(` and `)` that tokenising
/// puts around it.
pub open spec fn inner_tokens(input: Seq<char>) -> Seq<Seq<char>> {
    split_white(spaced(input))
}

/// A program whose parentheses balance (never more `)` than `(` so far, as
/// many in all) reads as one list with no token left over; one with more `(`
/// than `)` (and never more `)` than `(` so far) gives a reader error.
pub proof fn lemma_balanced_program(input: Seq<char>)
    ensures
        (depth(inner_tokens(input)) == 0 && forall|j: int|
            0 <= j <= inner_tokens(input).len() ==> depth(#[trigger] inner_tokens(input).take(j))
                >= 0) ==> (spec_parse(spec_tokenise(input)) matches Ok((e, rest)) && e is List
            && rest.len() == 0),
        (depth(inner_tokens(input)) > 0 && forall|j: int|
            0 <= j <= inner_tokens(input).len() ==> depth(#[trigger] inner_tokens(input).take(j))
                >= 0) ==> (spec_parse(spec_tokenise(input)) matches Err(e) && e is Reader),
{
    lemma_tokenise_shape(input);
    lemma_program_reads_as_list(input);
    lemma_parens_differ();
    reveal_strlit("(");
    reveal_strlit(")");
    assert("("@ =~= seq!['(']);
    assert(")"@ =~= seq![')']);
    let t = inner_tokens(input);
    let ts = spec_tokenise(input);
    let o: Seq<Seq<char>> = seq!["("@];
    let c: Seq<Seq<char>> = seq![")"@];
    assert(ts == o + t + c);
    lemma_depth_single("("@);
    lemma_depth_single(")"@);
    lemma_parse_one_form(ts);
    assert(ts[0] == "("@);
    assert(ts.drop_first() == t + c);
    lemma_read_seq_closes(t + c, seq![]);
    if forall|j: int| 0 <= j <= t.len() ==> depth(#[trigger] t.take(j)) >= 0 {
        if depth(t) == 0 {
            let n = ts.len() as int;
            lemma_depth_add(o + t, c);
            lemma_depth_add(o, t);
            assert forall|j: int| 0 < j < n implies depth(#[trigger] ts.take(j)) > 0 by {
                lemma_depth_front(ts, j - 1);
                assert(ts.drop_first().take(j - 1) == t.take(j - 1));
            }
            assert(ts.take(n) == ts);
            assert(one_form_at(ts, n));
            assert(ts.skip(n).len() == 0);
        }
        if depth(t) > 0 {
            let tc = t + c;
            assert forall|k: int| #[trigger] closes_at(tc, k) implies false by {
                if k <= t.len() {
                    assert(tc.take(k) == t.take(k));
                } else {
                    assert(tc.take(k) == tc);
                    lemma_depth_add(t, c);
                }
            }
        }
    }
}


/// How many of the first `n` positions of `ts` lie at depth zero: the number
/// of top-level forms that start there.
pub open spec fn top_level_starts(ts: Seq<Seq<char>>, n: nat) -> nat
    decreases n,
{
    if n == 0 {
        0
    } else {
        top_level_starts(ts, (n - 1) as nat) + (if depth(ts.take(n - 1)) == 0 {
            1nat
        } else {
            0nat
        })
    }
}

proof fn lemma_starts_shift(ts: Seq<Seq<char>>, m: nat, n: nat)
    requires
        m + n <= ts.len(),
        depth(ts.take(m as int)) == 0,
    ensures
        top_level_starts(ts, m + n) == top_level_starts(ts, m) + top_level_starts(ts.skip(m as int), n),
    decreases n,
{
    if n > 0 {
        lemma_starts_shift(ts, m, (n - 1) as nat);
        lemma_depth_split(ts, m as int, n - 1);
    }
}

proof fn lemma_starts_of_form(ts: Seq<Seq<char>>, m: int, j: nat)
    requires
        one_form_at(ts, m),
        1 <= j <= m,
    ensures
        top_level_starts(ts, j) == 1,
    decreases j,
{
    assert(ts.take(0) =~= Seq::<Seq<char>>::empty());
    lemma_depth_single(ts[0]);
    assert(depth(ts.take(0)) == 0);
    assert(top_level_starts(ts, 0) == 0);
    if j == 1 {
        assert(top_level_starts(ts, 1) == top_level_starts(ts, 0) + 1);
    } else {
        lemma_starts_of_form(ts, m, (j - 1) as nat);
        if ts[0] == "("@ {
            assert(depth(ts.take(j - 1)) > 0);
        }
    }
}

proof fn lemma_starts_prefix(a: Seq<Seq<char>>, b: Seq<Seq<char>>, n: nat)
    requires
        n <= a.len(),
    ensures
        top_level_starts(a + b, n) == top_level_starts(a, n),
    decreases n,
{
    if n > 0 {
        lemma_starts_prefix(a, b, (n - 1) as nat);
        assert((a + b).take(n - 1) == a.take(n - 1));
    }
}

/// Reading the rest of a list adds one element for each top-level form before
/// its closing `)`.
pub proof fn lemma_read_seq_count(ts: Seq<Seq<char>>, acc: Seq<OexpV>)
    ensures
        spec_read_seq(ts, acc) matches Ok((e, rest)) ==> (e matches OexpV::List(l) && l.len()
            == acc.len() + top_level_starts(ts, (ts.len() - rest.len() - 1) as nat)),
    decreases ts.len(),
{
    lemma_parens_differ();
    lemma_read_seq_closes(ts, acc);
    if ts.len() > 0 && ts[0] != ")"@ {
        lemma_parse_one_form(ts);
        match spec_parse(ts) {
            Ok((x, r)) => {
                let m = ts.len() - r.len();
                lemma_read_seq_count(r, acc.push(x));
                lemma_read_seq_closes(r, acc.push(x));
                match spec_read_seq(r, acc.push(x)) {
                    Ok((e, rest)) => {
                        let k2 = r.len() - rest.len();
                        assert(r == ts.skip(m));
                        lemma_starts_of_form(ts, m, m as nat);
                        if ts[0] == "("@ {
                            assert(depth(ts.take(m)) == 0);
                        } else {
                            assert(ts.take(1) == seq![ts[0]]);
                            lemma_depth_single(ts[0]);
                        }
                        lemma_starts_shift(ts, m as nat, (k2 - 1) as nat);
                    },
                    _ => {},
                }
            },
            _ => {},
        }
    }
}

/// A program whose parentheses balance reads as a list with one element for
/// each of its top-level forms.
pub proof fn lemma_balanced_program_elements(input: Seq<char>)
    requires
        depth(inner_tokens(input)) == 0,
        forall|j: int|
            0 <= j <= inner_tokens(input).len() ==> depth(#[trigger] inner_tokens(input).take(j)) >= 0,
    ensures
        spec_parse(spec_tokenise(input)) matches Ok((OexpV::List(l), _)) && l.len()
            == top_level_starts(inner_tokens(input), inner_tokens(input).len()),
{
    lemma_balanced_program(input);
    lemma_tokenise_shape(input);
    reveal_strlit("(");
    reveal_strlit(")");
    assert("("@ =~= seq!['(']);
    assert(")"@ =~= seq![')']);
    let t = inner_tokens(input);
    let ts = spec_tokenise(input);
    let c: Seq<Seq<char>> = seq![")"@];
    assert(ts == seq!["("@] + t + c);
    assert(ts[0] == "("@);
    assert(ts.drop_first() == t + c);
    lemma_read_seq_count(t + c, seq![]);
    lemma_starts_prefix(t, c, t.len());
}


/// The cases of a query `(subject verb object ... ?)` with at least three
/// forms: a comparison verb compares the two forms as written (they are not
/// evaluated, the scopes stay as they were, and the forms after the object are
/// ignored); `if` is the conditional with the object as its test and the
/// subject as its value; any other verb has no result (not implemented).
pub proof fn lemma_query_cases(
    g: nat,
    args: Seq<OexpV>,
    st: Seq<Map<Seq<char>, OexpV>>,
    ord: spec_fn(NumV, NumV) -> NumOrder,
)
    requires
        args.len() >= 3,
    ensures
        args[1] is Symbol && crate::semantics::is_comparison_verb(args[1]->Symbol_0) ==> sem_query(
            g,
            args,
            st,
            ord,
        ) == Outcome::Done(
            crate::semantics::compare_forms(args[1]->Symbol_0, args[0], args[2], ord),
            st,
        ),
        args[1] == OexpV::Symbol("if"@) ==> sem_query(g, args, st, ord) == sem_if(
            g,
            args[0],
            args[2],
            args.skip(3),
            st,
            ord,
        ),
        args[1] is Symbol && !crate::semantics::is_comparison_verb(args[1]->Symbol_0)
            && args[1]->Symbol_0 != "if"@ ==> sem_query(g, args, st, ord) is Stuck,
        !(args[1] is Symbol) ==> sem_query(g, args, st, ord) is Stuck,
{
    lemma_form_names();
}

/// `c` is a parenthesis.
pub open spec fn is_paren(c: char) -> bool {
    c == '(' || c == ')'
}

/// `t` holds no parenthesis.
pub open spec fn paren_free(t: Seq<char>) -> bool {
    forall|i: int| 0 <= i < t.len() ==> !is_paren(#[trigger] t[i])
}

/// A token is a parenthesis alone, or holds no parenthesis.
pub open spec fn token_ok(t: Seq<char>) -> bool {
    t == seq!['('] || t == seq![')'] || paren_free(t)
}

pub open spec fn all_tokens_ok(ws: Seq<Seq<char>>) -> bool {
    forall|j: int| 0 <= j < ws.len() ==> token_ok(#[trigger] ws[j])
}

/// Every parenthesis in `s` has a white character on either side.
pub open spec fn parens_apart(s: Seq<char>) -> bool {
    forall|i: int|
        0 <= i < s.len() && is_paren(#[trigger] s[i]) ==> 0 < i < s.len() - 1 && is_white(s[i - 1])
            && is_white(s[i + 1])
}

proof fn lemma_parens_apart_add(a: Seq<char>, b: Seq<char>)
    requires
        parens_apart(a),
        parens_apart(b),
    ensures
        parens_apart(a + b),
{
    assert forall|i: int| 0 <= i < (a + b).len() && is_paren(#[trigger] (a + b)[i]) implies 0 < i < (a
        + b).len() - 1 && is_white((a + b)[i - 1]) && is_white((a + b)[i + 1]) by {
        if i < a.len() {
            assert((a + b)[i] == a[i]);
            assert((a + b)[i - 1] == a[i - 1]);
            assert((a + b)[i + 1] == a[i + 1]);
        } else {
            assert((a + b)[i] == b[i - a.len()]);
            assert((a + b)[i - 1] == b[i - a.len() - 1]);
            assert((a + b)[i + 1] == b[i - a.len() + 1]);
        }
    }
}

proof fn lemma_spaced_parens_apart(x: Seq<char>)
    ensures
        parens_apart(spaced(x)),
    decreases x.len(),
{
    if x.len() > 0 {
        lemma_spaced_parens_apart(x.drop_last());
        let c = x.last();
        assert(parens_apart(set_apart(c))) by {
            if is_paren(c) {
                assert(set_apart(c) == seq![' ', c, ' ']);
            } else {
                assert(set_apart(c) == seq![c]);
            }
        }
        lemma_parens_apart_add(spaced(x.drop_last()), set_apart(c));
    } else {
        assert(spaced(x) == Seq::<char>::empty());
    }
}

proof fn lemma_all_tokens_ok_concat(a: Seq<Seq<char>>, b: Seq<Seq<char>>)
    requires
        all_tokens_ok(a),
        all_tokens_ok(b),
    ensures
        all_tokens_ok(a + b),
{
    assert forall|j: int| 0 <= j < (a + b).len() implies token_ok(#[trigger] (a + b)[j]) by {
        if j < a.len() {
            assert((a + b)[j] == a[j]);
        } else {
            assert((a + b)[j] == b[j - a.len()]);
        }
    }
}

/// Splitting text whose parentheses are set apart by white space gives tokens
/// that are a parenthesis alone or hold none.
proof fn lemma_split_tokens_ok(s: Seq<char>, cur: Seq<char>)
    requires
        paren_free(cur) || (cur == seq!['('] || cur == seq![')']) && (s.len() == 0 || is_white(s[0])),
        forall|i: int|
            0 <= i < s.len() && is_paren(#[trigger] s[i]) ==> (i + 1 < s.len() ==> is_white(s[i + 1])),
        forall|i: int| 1 <= i < s.len() && is_paren(#[trigger] s[i]) ==> is_white(s[i - 1]),
        s.len() > 0 && is_paren(s[0]) ==> cur.len() == 0,
    ensures
        all_tokens_ok(split_from(s, cur)),
    decreases s.len(),
{
    assert(all_tokens_ok(flush(cur))) by {
        if cur.len() > 0 {
            assert(flush(cur)[0] == cur);
        }
    }
    if s.len() > 0 {
        let t = s.drop_first();
        assert forall|i: int| 0 <= i < t.len() && is_paren(#[trigger] t[i]) implies (i + 1 < t.len()
            ==> is_white(t[i + 1])) by {
            assert(t[i] == s[i + 1]);
            if i + 1 < t.len() {
                assert(t[i + 1] == s[i + 2]);
            }
        }
        assert forall|i: int| 1 <= i < t.len() && is_paren(#[trigger] t[i]) implies is_white(t[i - 1]) by {
            assert(t[i] == s[i + 1]);
            assert(t[i - 1] == s[i]);
        }
        if is_white(s[0]) {
            assert(paren_free(Seq::<char>::empty()));
            if t.len() > 0 && is_paren(t[0]) {
                assert(t[0] == s[1]);
            }
            lemma_split_tokens_ok(t, seq![]);
            lemma_all_tokens_ok_concat(flush(cur), split_from(t, seq![]));
        } else if is_paren(s[0]) {
            let c2 = cur.push(s[0]);
            assert(c2 =~= seq![s[0]]);
            if t.len() > 0 {
                assert(t[0] == s[1]);
                assert(is_white(s[1]));
            }
            lemma_split_tokens_ok(t, c2);
        } else {
            let c2 = cur.push(s[0]);
            assert(paren_free(cur)) by {
                if !paren_free(cur) {
                    assert(is_white(s[0]));
                }
            }
            assert forall|i: int| 0 <= i < c2.len() implies !is_paren(#[trigger] c2[i]) by {
                if i < cur.len() {
                    assert(c2[i] == cur[i]);
                }
            }
            if t.len() > 0 && is_paren(t[0]) {
                assert(t[0] == s[1]);
                assert(is_white(s[0]));
            }
            lemma_split_tokens_ok(t, c2);
        }
    }
}

/// Every token is `(`, `)`, or holds no parenthesis; there are at least two,
/// the first `(` and the last `)`.
pub proof fn lemma_tokens_are_parens_or_paren_free(input: Seq<char>)
    ensures
        all_tokens_ok(spec_tokenise(input)),
        all_tokens_ok(inner_tokens(input)),
        spec_tokenise(input).len() >= 2,
        spec_tokenise(input)[0] == "("@,
        spec_tokenise(input).last() == ")"@,
{
    lemma_tokenise_shape(input);
    reveal_strlit("(");
    reveal_strlit(")");
    assert("("@ =~= seq!['(']);
    assert(")"@ =~= seq![')']);
    let full = seq!['('] + input + seq![')'];
    lemma_spaced_parens_apart(full);
    lemma_spaced_parens_apart(input);
    assert(paren_free(Seq::<char>::empty()));
    let sf = spaced(full);
    assert forall|i: int| 0 <= i < sf.len() && is_paren(#[trigger] sf[i]) implies (i + 1 < sf.len()
        ==> is_white(sf[i + 1])) by {}
    let si = spaced(input);
    assert forall|i: int| 0 <= i < si.len() && is_paren(#[trigger] si[i]) implies (i + 1 < si.len()
        ==> is_white(si[i + 1])) by {}
    lemma_split_tokens_ok(sf, seq![]);
    lemma_split_tokens_ok(si, seq![]);
}

/// What a character adds to the nesting depth of a text.
pub open spec fn char_weight(c: char) -> int {
    if c == '(' {
        1
    } else if c == ')' {
        -1
    } else {
        0
    }
}

/// The number of `(` minus the number of `)` in `s`.
pub open spec fn text_depth(s: Seq<char>) -> int
    decreases s.len(),
{
    if s.len() == 0 {
        0
    } else {
        text_depth(s.drop_last()) + char_weight(s.last())
    }
}

proof fn lemma_text_depth_add(a: Seq<char>, b: Seq<char>)
    ensures
        text_depth(a + b) == text_depth(a) + text_depth(b),
    decreases b.len(),
{
    if b.len() == 0 {
        assert(a + b == a);
    } else {
        lemma_text_depth_add(a, b.drop_last());
        assert((a + b).drop_last() == a + b.drop_last());
        assert((a + b).last() == b.last());
    }
}

proof fn lemma_text_depth_single(c: char)
    ensures
        text_depth(seq![c]) == char_weight(c),
{
    let e = Seq::<char>::empty();
    assert(text_depth(e) == 0);
    assert(seq![c].drop_last() =~= e);
    assert(seq![c].last() == c);
}

proof fn lemma_text_depth_front(c: char, y: Seq<char>)
    ensures
        text_depth(seq![c] + y) == char_weight(c) + text_depth(y),
{
    lemma_text_depth_add(seq![c], y);
    lemma_text_depth_single(c);
}

proof fn lemma_paren_free_depth(t: Seq<char>)
    requires
        paren_free(t),
    ensures
        text_depth(t) == 0,
    decreases t.len(),
{
    if t.len() > 0 {
        assert(!is_paren(t[t.len() - 1]));
        assert(paren_free(t.drop_last())) by {
            assert forall|i: int| 0 <= i < t.drop_last().len() implies !is_paren(#[trigger] t.drop_last()[i]) by {
                assert(t.drop_last()[i] == t[i]);
            }
        }
        lemma_paren_free_depth(t.drop_last());
    }
}

proof fn lemma_strip_depth(x: Seq<char>)
    ensures
        text_depth(strip_white(x)) == text_depth(x),
    decreases x.len(),
{
    if x.len() == 0 {
        assert(strip_white(x) == Seq::<char>::empty());
    } else {
        lemma_strip_depth(x.drop_first());
        assert(x == seq![x[0]] + x.drop_first());
        lemma_text_depth_front(x[0], x.drop_first());
        let piece = if is_white(x[0]) {
            Seq::<char>::empty()
        } else {
            seq![x[0]]
        };
        lemma_text_depth_add(piece, strip_white(x.drop_first()));
        lemma_text_depth_single(x[0]);
        assert(text_depth(Seq::<char>::empty()) == 0);
        assert(is_white(x[0]) ==> char_weight(x[0]) == 0);
    }
}

/// With well-formed tokens, the depth counted over tokens is the depth
/// counted over the characters they hold.
proof fn lemma_token_depth_chars(ws: Seq<Seq<char>>)
    requires
        all_tokens_ok(ws),
    ensures
        depth(ws) == text_depth(concat_all(ws)),
    decreases ws.len(),
{
    lemma_parens_differ();
    reveal_strlit("(");
    reveal_strlit(")");
    assert("("@ =~= seq!['(']);
    assert(")"@ =~= seq![')']);
    if ws.len() == 0 {
        assert(depth(ws) == 0);
    } else {
        let t = ws[0];
        let rest = ws.drop_first();
        assert(all_tokens_ok(rest)) by {
            assert forall|j: int| 0 <= j < rest.len() implies token_ok(#[trigger] rest[j]) by {
                assert(rest[j] == ws[j + 1]);
            }
        }
        lemma_token_depth_chars(rest);
        assert(ws == seq![t] + rest);
        lemma_depth_add(seq![t], rest);
        lemma_depth_single(t);
        lemma_text_depth_add(t, concat_all(rest));
        assert(token_ok(ws[0]));
        if t == seq!['('] {
            lemma_text_depth_single('(');
        } else if t == seq![')'] {
            lemma_text_depth_single(')');
        } else {
            lemma_paren_free_depth(t);
            assert(t != "("@) by {
                assert("("@[0] == '(');
                if t.len() > 0 {
                    assert(!is_paren(t[0]));
                }
            }
            assert(t != ")"@) by {
                assert(")"@[0] == ')');
                if t.len() > 0 {
                    assert(!is_paren(t[0]));
                }
            }
        }
    }
}

/// Every prefix of the characters that remain once white space is taken out
/// has the depth of some prefix of the text.
proof fn lemma_strip_prefix_depth(x: Seq<char>, p: int) -> (n: int)
    requires
        0 <= p <= strip_white(x).len(),
    ensures
        0 <= n <= x.len(),
        text_depth(strip_white(x).take(p)) == text_depth(x.take(n)),
    decreases x.len(),
{
    if p == 0 {
        assert(strip_white(x).take(0) =~= Seq::<char>::empty());
        assert(x.take(0) =~= Seq::<char>::empty());
        0
    } else {
        assert(x.len() > 0) by {
            if x.len() == 0 {
                assert(strip_white(x) == Seq::<char>::empty());
            }
        }
        let y = x.drop_first();
        assert(x.take(1) == seq![x[0]]);
        if is_white(x[0]) {
            assert(strip_white(x) == Seq::<char>::empty() + strip_white(y));
            assert(strip_white(x) =~= strip_white(y));
            let n1 = lemma_strip_prefix_depth(y, p);
            assert(x.take(n1 + 1) == seq![x[0]] + y.take(n1));
            lemma_text_depth_front(x[0], y.take(n1));
            n1 + 1
        } else {
            assert(strip_white(x) == seq![x[0]] + strip_white(y));
            let n1 = lemma_strip_prefix_depth(y, p - 1);
            assert(strip_white(x).take(p) == seq![x[0]] + strip_white(y).take(p - 1));
            lemma_text_depth_front(x[0], strip_white(y).take(p - 1));
            assert(x.take(n1 + 1) == seq![x[0]] + y.take(n1));
            lemma_text_depth_front(x[0], y.take(n1));
            n1 + 1
        }
    }
}

/// The depth over a program's tokens is the number of `(` minus the number of
/// `)` in its text, and the depth after any number of its tokens is that of
/// some prefix of its text.
pub proof fn lemma_token_depth_is_text_depth(input: Seq<char>)
    ensures
        depth(inner_tokens(input)) == text_depth(input),
        forall|j: int|
            0 <= j <= inner_tokens(input).len() ==> exists|n: int|
                0 <= n <= input.len() && depth(#[trigger] inner_tokens(input).take(j)) == text_depth(
                    input.take(n),
                ),
{
    let w = inner_tokens(input);
    lemma_tokens_are_parens_or_paren_free(input);
    lemma_split_concat(spaced(input), seq![]);
    lemma_strip_spaced(input);
    assert(Seq::<char>::empty() + strip_white(spaced(input)) == strip_white(spaced(input)));
    assert(concat_all(w) == strip_white(input));
    lemma_token_depth_chars(w);
    lemma_strip_depth(input);
    assert forall|j: int| 0 <= j <= w.len() implies exists|n: int|
        0 <= n <= input.len() && depth(#[trigger] w.take(j)) == text_depth(input.take(n)) by {
        let a = w.take(j);
        let b = w.skip(j);
        assert(a + b == w);
        assert(all_tokens_ok(a)) by {
            assert forall|i: int| 0 <= i < a.len() implies token_ok(#[trigger] a[i]) by {
                assert(a[i] == w[i]);
            }
        }
        lemma_token_depth_chars(a);
        lemma_concat_all_add(a, b);
        let p = concat_all(a).len() as int;
        assert(strip_white(input).take(p) == concat_all(a));
        let n = lemma_strip_prefix_depth(input, p);
    }
}

/// A program whose text balances its parentheses (never more `)` than `(` so
/// far, as many in all) reads as one list with no token left over; one with
/// more `(` than `)` (never more `)` than `(` so far) gives a reader error.
pub proof fn lemma_balanced_text(input: Seq<char>)
    ensures
        (text_depth(input) == 0 && forall|n: int| 0 <= n <= input.len() ==> text_depth(
            #[trigger] input.take(n),
        ) >= 0) ==> (spec_parse(spec_tokenise(input)) matches Ok((e, rest)) && e is List && rest.len()
            == 0),
        (text_depth(input) > 0 && forall|n: int| 0 <= n <= input.len() ==> text_depth(
            #[trigger] input.take(n),
        ) >= 0) ==> (spec_parse(spec_tokenise(input)) matches Err(e) && e is Reader),
{
    lemma_token_depth_is_text_depth(input);
    lemma_balanced_program(input);
    let w = inner_tokens(input);
    if forall|n: int| 0 <= n <= input.len() ==> text_depth(#[trigger] input.take(n)) >= 0 {
        assert forall|j: int| 0 <= j <= w.len() implies depth(#[trigger] w.take(j)) >= 0 by {
            let n = choose|n: int|
                0 <= n <= input.len() && depth(#[trigger] w.take(j)) == text_depth(input.take(n));
            assert(text_depth(input.take(n)) >= 0);
        }
    }
}


/// Binding parameters to arguments: with distinct names, the `i`-th name is
/// bound to the `i`-th value, and nothing else is bound.
pub proof fn lemma_params_bound_in_order(ks: Seq<Seq<char>>, vs: Seq<OexpV>)
    requires
        ks.len() == vs.len(),
        forall|i: int, j: int| 0 <= i < j < ks.len() ==> ks[i] != ks[j],
    ensures
        forall|i: int|
            0 <= i < ks.len() ==> #[trigger] bind_params(ks, vs).contains_key(ks[i]) && bind_params(
                ks,
                vs,
            )[ks[i]] == vs[i],
        forall|k: Seq<char>| #[trigger] bind_params(ks, vs).contains_key(k) ==> ks.contains(k),
    decreases ks.len(),
{
    let n = ks.len();
    let pairs = Seq::new(n, |i: int| (ks[i], vs[i]));
    if n > 0 {
        let ks1 = ks.drop_last();
        let vs1 = vs.drop_last();
        lemma_params_bound_in_order(ks1, vs1);
        assert(pairs.drop_last() =~= Seq::new(ks1.len(), |i: int| (ks1[i], vs1[i])));
        assert(bind_params(ks, vs) == bind_params(ks1, vs1).insert(ks[n - 1], vs[n - 1]));
        assert forall|i: int| 0 <= i < ks.len() implies #[trigger] bind_params(ks, vs).contains_key(
            ks[i],
        ) && bind_params(ks, vs)[ks[i]] == vs[i] by {
            if i < n - 1 {
                assert(ks1[i] == ks[i]);
                assert(vs1[i] == vs[i]);
            }
        }
        assert forall|k: Seq<char>| #[trigger] bind_params(ks, vs).contains_key(k) implies ks.contains(
            k,
        ) by {
            if k != ks[n - 1] {
                assert(bind_params(ks1, vs1).contains_key(k));
                let j = choose|j: int| 0 <= j < ks1.len() && ks1[j] == k;
                assert(ks[j] == k);
            } else {
                assert(ks[n - 1] == k);
            }
        }
    } else {
        assert(pairs.len() == 0);
        assert(bind_params(ks, vs) == Map::<Seq<char>, OexpV>::empty());
    }
}

/// Calling a function whose body is its `i`-th parameter, on numbers and
/// booleans, gives the `i`-th argument: each parameter is bound to the
/// argument at the same place. The scopes are left as they were.
pub proof fn lemma_call_gives_argument(
    fuel: nat,
    fname: Seq<char>,
    params: OexpV,
    args: Seq<OexpV>,
    i: int,
    st: Seq<Map<Seq<char>, OexpV>>,
    ord: spec_fn(NumV, NumV) -> NumOrder,
)
    requires
        fuel >= 2,
        st.len() >= 1,
        builtin_form(OexpV::Symbol(fname)) is None,
        param_names(params) matches Ok(ks) && ks.len() == args.len() && (forall|a: int, b: int|
            0 <= a < b < ks.len() ==> ks[a] != ks[b]),
        0 <= i < args.len(),
        spec_lookup(st, fname) == Some(
            OexpV::FunctionDef(
                Box::new(params),
                Box::new(OexpV::Symbol(param_names(params)->Ok_0[i])),
            ),
        ),
        forall|j: int| 0 <= j < args.len() ==> (#[trigger] args[j] is Number) || args[j] is Boolean,
    ensures
        sem_eval(fuel, OexpV::List(args.push(OexpV::Symbol(fname))), st, ord) == Outcome::Done(
            Ok(args[i]),
            st,
        ),
{
    let ks = param_names(params)->Ok_0;
    let body = OexpV::Symbol(ks[i]);
    lemma_call_binds_parameters(fuel, fname, params, body, args, st, ord);
    lemma_params_bound_in_order(ks, args);
    let inner = st.push(bind_params(ks, args));
    assert(inner.last() == bind_params(ks, args));
    assert(spec_lookup(inner, ks[i]) == Some(args[i]));
}

/// The query `(a verb b ?)` on two numbers compares them as written: `>`
/// holds exactly when `a` is greater, `<` when it is less, `=` and `==` when
/// they are equal, `>=` when greater or equal, `=<` when less or equal, `~=`
/// and `!=` when they are not equal (so also when one is not a number). The
/// scopes stay as they were.
pub proof fn lemma_comparisons(
    fuel: nat,
    a: NumV,
    b: NumV,
    st: Seq<Map<Seq<char>, OexpV>>,
    ord: spec_fn(NumV, NumV) -> NumOrder,
)
    requires
        fuel >= 1,
    ensures
        sem_eval(fuel, query_form(a, ">"@, b), st, ord) == Outcome::Done(
            Ok(OexpV::Boolean(ord(a, b) == NumOrder::Greater)),
            st,
        ),
        sem_eval(fuel, query_form(a, "<"@, b), st, ord) == Outcome::Done(
            Ok(OexpV::Boolean(ord(a, b) == NumOrder::Less)),
            st,
        ),
        sem_eval(fuel, query_form(a, "="@, b), st, ord) == Outcome::Done(
            Ok(OexpV::Boolean(ord(a, b) == NumOrder::Equal)),
            st,
        ),
        sem_eval(fuel, query_form(a, "=="@, b), st, ord) == Outcome::Done(
            Ok(OexpV::Boolean(ord(a, b) == NumOrder::Equal)),
            st,
        ),
        sem_eval(fuel, query_form(a, ">="@, b), st, ord) == Outcome::Done(
            Ok(OexpV::Boolean(ord(a, b) == NumOrder::Greater || ord(a, b) == NumOrder::Equal)),
            st,
        ),
        sem_eval(fuel, query_form(a, "=<"@, b), st, ord) == Outcome::Done(
            Ok(OexpV::Boolean(ord(a, b) == NumOrder::Less || ord(a, b) == NumOrder::Equal)),
            st,
        ),
        sem_eval(fuel, query_form(a, "~="@, b), st, ord) == Outcome::Done(
            Ok(OexpV::Boolean(ord(a, b) != NumOrder::Equal)),
            st,
        ),
        sem_eval(fuel, query_form(a, "!="@, b), st, ord) == Outcome::Done(
            Ok(OexpV::Boolean(ord(a, b) != NumOrder::Equal)),
            st,
        ),
{
    reveal_strlit(">");
    reveal_strlit("<");
    reveal_strlit("=");
    reveal_strlit("==");
    reveal_strlit(">=");
    reveal_strlit("=<");
    reveal_strlit("~=");
    reveal_strlit("!=");
    assert(">"@.len() == 1 && ">"@[0] == '>');
    assert("<"@.len() == 1 && "<"@[0] == '<');
    assert("="@.len() == 1 && "="@[0] == '=');
    assert("=="@.len() == 2);
    assert(">="@.len() == 2 && ">="@[0] == '>');
    assert("=<"@.len() == 2 && "=<"@[0] == '=');
    assert("~="@.len() == 2 && "~="@[0] == '~');
    assert("!="@.len() == 2 && "!="@[0] == '!');
    assert("=="@[1] == '=' && "=<"@[1] == '<');
    lemma_query_verb(fuel, a, ">"@, b, st, ord);
    lemma_query_verb(fuel, a, "<"@, b, st, ord);
    lemma_query_verb(fuel, a, "="@, b, st, ord);
    lemma_query_verb(fuel, a, "=="@, b, st, ord);
    lemma_query_verb(fuel, a, ">="@, b, st, ord);
    lemma_query_verb(fuel, a, "=<"@, b, st, ord);
    lemma_query_verb(fuel, a, "~="@, b, st, ord);
    lemma_query_verb(fuel, a, "!="@, b, st, ord);
}

proof fn lemma_query_verb(
    fuel: nat,
    a: NumV,
    v: Seq<char>,
    b: NumV,
    st: Seq<Map<Seq<char>, OexpV>>,
    ord: spec_fn(NumV, NumV) -> NumOrder,
)
    requires
        fuel >= 1,
        crate::semantics::is_comparison_verb(v),
    ensures
        sem_eval(fuel, query_form(a, v, b), st, ord) == Outcome::Done(
            Ok(OexpV::Boolean(crate::semantics::verb_holds(v, ord(a, b)))),
            st,
        ),
{
    lemma_form_names();
    let l = seq![OexpV::Number(a), OexpV::Symbol(v), OexpV::Number(b)];
    let q = l.push(OexpV::Symbol("?"@));
    assert(q.drop_last() =~= l);
    assert(q =~= seq![OexpV::Number(a), OexpV::Symbol(v), OexpV::Number(b), OexpV::Symbol("?"@)]);
    assert(query_form(a, v, b) == OexpV::List(q));
    assert(q.last() == OexpV::Symbol("?"@));
    assert(sem_eval(fuel, OexpV::List(q), st, ord) == sem_query((fuel - 1) as nat, l, st, ord));
}

/// The form `(a verb b ?)`.
pub open spec fn query_form(a: NumV, verb: Seq<char>, b: NumV) -> OexpV {
    OexpV::List(
        seq![OexpV::Number(a), OexpV::Symbol(verb), OexpV::Number(b), OexpV::Symbol("?"@)],
    )
}

/// A list `(s ... !)` evaluates its first form `s` in the same scopes and
/// gives exactly what that gives; the forms between are not evaluated. So a
/// symbol subject gives the value bound to it.
pub proof fn lemma_subject_is_evaluated(
    fuel: nat,
    l: Seq<OexpV>,
    st: Seq<Map<Seq<char>, OexpV>>,
    ord: spec_fn(NumV, NumV) -> NumOrder,
)
    requires
        fuel >= 1,
        l.len() >= 2,
        l.last() == OexpV::Symbol("!"@),
    ensures
        sem_eval(fuel, OexpV::List(l), st, ord) == sem_eval((fuel - 1) as nat, l[0], st, ord),
        fuel >= 2 && l[0] is Symbol && spec_lookup(st, l[0]->Symbol_0) is Some ==> sem_eval(
            fuel,
            OexpV::List(l),
            st,
            ord,
        ) == Outcome::<OexpV>::Done(Ok(spec_lookup(st, l[0]->Symbol_0)->Some_0), st),
{
    lemma_form_names();
    assert(l.drop_last()[0] == l[0]);
}

/// The white characters are exactly those of Unicode `White_Space`, which
/// `char::is_whitespace` tests and at which `str::split_whitespace` splits:
/// tab, line feed, vertical tab, form feed, carriage return, space, next
/// line, no-break space, ogham space mark, the eleven spaces from en quad to
/// hair space, line separator, paragraph separator, narrow no-break space,
/// medium mathematical space and ideographic space.
pub proof fn lemma_white_is_unicode_white_space(c: char)
    ensures
        is_white(c) <==> {
            ||| c == '\t'
            ||| c == '\n'
            ||| c == '\u{b}'
            ||| c == '\u{c}'
            ||| c == '\r'
            ||| c == ' '
            ||| c == '\u{85}'
            ||| c == '\u{a0}'
            ||| c == '\u{1680}'
            ||| c == '\u{2000}'
            ||| c == '\u{2001}'
            ||| c == '\u{2002}'
            ||| c == '\u{2003}'
            ||| c == '\u{2004}'
            ||| c == '\u{2005}'
            ||| c == '\u{2006}'
            ||| c == '\u{2007}'
            ||| c == '\u{2008}'
            ||| c == '\u{2009}'
            ||| c == '\u{200a}'
            ||| c == '\u{2028}'
            ||| c == '\u{2029}'
            ||| c == '\u{202f}'
            ||| c == '\u{205f}'
            ||| c == '\u{3000}'
        },
{
}

/// Any white character, a carriage return among them, separates two tokens:
/// the tokens of `a w b` are those of `a` and then those of `b`.
pub proof fn lemma_every_white_char_separates(a: Seq<char>, w: char, b: Seq<char>)
    requires
        white_space_char(w),
    ensures
        spec_tokenise(a + seq![w] + b) == spec_tokenise(a).drop_last() + spec_tokenise(b).drop_first(),
{
    lemma_white_is_unicode_white_space(w);
    lemma_tokens_join(a, w, b);
}

/// The characters of Unicode `White_Space`, listed.
pub open spec fn white_space_char(c: char) -> bool {
    ||| c == '\t' || c == '\n' || c == '\u{b}' || c == '\u{c}' || c == '\r' || c == ' '
    ||| c == '\u{85}' || c == '\u{a0}' || c == '\u{1680}'
    ||| '\u{2000}' <= c <= '\u{200a}'
    ||| c == '\u{2028}' || c == '\u{2029}' || c == '\u{202f}' || c == '\u{205f}' || c == '\u{3000}'
}

proof fn lemma_point_mantissa(a: Seq<char>, b: Seq<char>)
    requires
        all_digits(a),
        all_digits(b),
        a.len() + b.len() > 0,
    ensures
        is_mantissa(a + seq!['.'] + b),
        (a + seq!['.'] + b).len() > 0,
        !is_sign((a + seq!['.'] + b)[0]),
        (a + seq!['.'] + b)[0] == '.' || is_digit((a + seq!['.'] + b)[0]),
{
    let m = a + seq!['.'] + b;
    let d = a.len() as int;
    assert(m[d] == '.');
    assert(m.take(d) =~= a);
    assert(m.skip(d + 1) =~= b);
    if a.len() > 0 {
        assert(m[0] == a[0]);
    }
}

proof fn lemma_number_with_exponent(m: Seq<char>, x: Seq<char>)
    requires
        is_mantissa(m),
        m.len() > 0,
        is_exponent(x),
    ensures
        is_number(m + x),
{
    let t = m + x;
    let k = m.len() as int;
    assert(t.take(k) =~= m);
    assert(t.skip(k) =~= x);
    assert(is_exponent(t.skip(k)));
}

/// Decimal numerals are numbers: digits, a point and digits, with at least
/// one digit in all, any number of them on either side of the point; with or
/// without a sign in front and an exponent `e` or `E` (itself signed or not)
/// behind; and plain digits, signed or not. Such a token reads as a number.
pub proof fn lemma_decimal_numerals(a: Seq<char>, b: Seq<char>, sign: char, y: Seq<char>)
    requires
        all_digits(a),
        all_digits(b),
        a.len() + b.len() > 0,
        is_sign(sign),
        all_digits(y),
        y.len() > 0,
    ensures
        is_float_literal(a + seq!['.'] + b),
        is_float_literal(seq![sign] + (a + seq!['.'] + b)),
        is_float_literal(a + seq!['.'] + b + seq!['e'] + y),
        is_float_literal(seq![sign] + (a + seq!['.'] + b + seq!['E', sign] + y)),
        a.len() > 0 ==> is_float_literal(a) && is_float_literal(seq![sign] + a),
        crate::reader::spec_atom(a + seq!['.'] + b) == OexpV::Number(NumV::Lit(a + seq!['.'] + b)),
{
    let m = a + seq!['.'] + b;
    lemma_point_mantissa(a, b);
    assert(is_number(m));
    assert((seq![sign] + m)[0] == sign);
    assert((seq![sign] + m).drop_first() =~= m);
    let x1 = seq!['e'] + y;
    assert(x1.drop_first() =~= y);
    assert(letter_ci(x1[0], 'e'));
    lemma_number_with_exponent(m, x1);
    assert(m + seq!['e'] + y =~= m + x1);
    assert((m + x1)[0] == m[0]);
    let x2 = seq!['E', sign] + y;
    assert(x2.drop_first() =~= seq![sign] + y);
    assert((seq![sign] + y).drop_first() =~= y);
    assert(('E' as int) == ('e' as int) - 32);
    assert(letter_ci(x2[0], 'e'));
    assert(is_signed_digits(x2.drop_first()));
    lemma_number_with_exponent(m, x2);
    assert(m + seq!['E', sign] + y =~= m + x2);
    assert((seq![sign] + (m + x2)).drop_first() =~= m + x2);
    assert((seq![sign] + (m + x2))[0] == sign);
    if a.len() > 0 {
        assert(is_mantissa(a));
        assert(!is_sign(a[0]));
        assert((seq![sign] + a).drop_first() =~= a);
        assert((seq![sign] + a)[0] == sign);
    }
    reveal_strlit("true");
    reveal_strlit("false");
    assert(m != "true"@) by {
        assert("true"@[0] == 't');
    }
    assert(m != "false"@) by {
        assert("false"@[0] == 'f');
    }
}


/// Plain digits with an exponent, and the words `inf`, `infinity` and `nan`
/// in any mix of cases, signed or not, are numbers too.
pub proof fn lemma_other_numerals(a: Seq<char>, sign: char, y: Seq<char>, w: Seq<char>)
    requires
        all_digits(a),
        a.len() > 0,
        is_sign(sign),
        all_digits(y),
        y.len() > 0,
    ensures
        is_float_literal(a + seq!['e'] + y),
        is_float_literal(seq![sign] + (a + seq!['E', sign] + y)),
        special_word(w) ==> is_float_literal(w) && is_float_literal(seq![sign] + w),
{
    assert(is_mantissa(a));
    let x1 = seq!['e'] + y;
    assert(x1.drop_first() =~= y);
    assert(letter_ci(x1[0], 'e'));
    lemma_number_with_exponent(a, x1);
    assert(a + seq!['e'] + y =~= a + x1);
    assert((a + x1)[0] == a[0]);
    let x2 = seq!['E', sign] + y;
    assert(x2.drop_first() =~= seq![sign] + y);
    assert((seq![sign] + y).drop_first() =~= y);
    assert(('E' as int) == ('e' as int) - 32);
    assert(letter_ci(x2[0], 'e'));
    lemma_number_with_exponent(a, x2);
    assert(a + seq!['E', sign] + y =~= a + x2);
    assert((seq![sign] + (a + x2)).drop_first() =~= a + x2);
    assert((seq![sign] + (a + x2))[0] == sign);
    if special_word(w) {
        assert(w.len() > 0 && !is_sign(w[0])) by {
            assert(letter_ci(w[0], 'i') || letter_ci(w[0], 'n'));
        }
        assert((seq![sign] + w).drop_first() =~= w);
        assert((seq![sign] + w)[0] == sign);
    }
}

/// `inf`, `infinity` or `nan`, in any mix of cases.
pub open spec fn special_word(w: Seq<char>) -> bool {
    ||| word_ci(w, seq!['i', 'n', 'f'])
    ||| word_ci(w, seq!['i', 'n', 'f', 'i', 'n', 'i', 't', 'y'])
    ||| word_ci(w, seq!['n', 'a', 'n'])
}

/// A character that may stand in a numeral other than the special words.
pub open spec fn numeral_char(c: char) -> bool {
    is_digit(c) || c == '.' || c == 'e' || c == 'E' || is_sign(c)
}

proof fn lemma_mantissa_chars(m: Seq<char>)
    requires
        is_mantissa(m),
    ensures
        forall|i: int| 0 <= i < m.len() ==> is_digit(#[trigger] m[i]) || m[i] == '.',
        forall|i: int, j: int| 0 <= i < j < m.len() ==> !(m[i] == '.' && m[j] == '.'),
        exists|i: int| 0 <= i < m.len() && is_digit(#[trigger] m[i]),
        m.len() > 0,
{
    if m.len() > 0 && all_digits(m) {
        assert(is_digit(m[0]));
    } else {
        let d = choose|d: int|
            0 <= d < m.len() && m.len() >= 2 && #[trigger] m[d] == '.' && all_digits(m.take(d))
                && all_digits(m.skip(d + 1));
        assert forall|i: int| 0 <= i < m.len() && i != d implies is_digit(#[trigger] m[i]) by {
            if i < d {
                assert(m.take(d)[i] == m[i]);
            } else {
                assert(m.skip(d + 1)[i - d - 1] == m[i]);
            }
        }
        if d > 0 {
            assert(is_digit(m[0]));
        } else {
            assert(is_digit(m[1]));
        }
    }
}

proof fn lemma_number_chars(s: Seq<char>)
    requires
        is_number(s),
    ensures
        forall|i: int| 0 <= i < s.len() ==> numeral_char(#[trigger] s[i]),
        forall|i: int, j: int| 0 <= i < j < s.len() ==> !(s[i] == '.' && s[j] == '.'),
        exists|i: int| 0 <= i < s.len() && is_digit(#[trigger] s[i]),
        s.len() > 0,
{
    if is_mantissa(s) {
        lemma_mantissa_chars(s);
    } else {
        let k = choose|k: int| 0 < k < s.len() && is_mantissa(s.take(k)) && #[trigger] is_exponent(s.skip(k));
        let m = s.take(k);
        let x = s.skip(k);
        lemma_mantissa_chars(m);
        assert(('E' as int) == ('e' as int) - 32);
        assert forall|i: int| 0 <= i < s.len() implies numeral_char(#[trigger] s[i]) && (i >= k ==> s[i] != '.') by {
            if i < k {
                assert(m[i] == s[i]);
            } else if i == k {
                assert(x[0] == s[i]);
            } else {
                let y = x.drop_first();
                assert(y[i - k - 1] == s[i]);
                if y.len() > 0 && all_digits(y) {
                    assert(is_digit(y[i - k - 1]));
                } else if i - k - 1 > 0 {
                    assert(y.drop_first()[i - k - 2] == y[i - k - 1]);
                }
            }
        }
        assert forall|i: int, j: int| 0 <= i < j < s.len() implies !(s[i] == '.' && s[j] == '.') by {
            if j < k {
                assert(m[i] == s[i]);
                assert(m[j] == s[j]);
            }
        }
        let i0 = choose|i: int| 0 <= i < m.len() && is_digit(#[trigger] m[i]);
        assert(s[i0] == m[i0]);
    }
}

/// What a number is made of: apart from the words `inf`, `infinity` and
/// `nan` (signed or not), a token read as a number is made only of digits,
/// points, signs and the letter `e` or `E`, holds at most one point and at
/// least one digit. So the empty token, a point or a sign alone, and a token
/// with two points are not numbers.
pub proof fn lemma_numbers_are_numerals(s: Seq<char>)
    requires
        is_float_literal(s),
        !special_word(s),
        !(s.len() > 0 && is_sign(s[0]) && special_word(s.drop_first())),
    ensures
        forall|i: int| 0 <= i < s.len() ==> numeral_char(#[trigger] s[i]),
        forall|i: int, j: int| 0 <= i < j < s.len() ==> !(s[i] == '.' && s[j] == '.'),
        exists|i: int| 0 <= i < s.len() && is_digit(#[trigger] s[i]),
{
    if s.len() > 0 && is_sign(s[0]) {
        let t = s.drop_first();
        lemma_number_chars(t);
        assert forall|i: int| 0 <= i < s.len() implies numeral_char(#[trigger] s[i]) by {
            if i > 0 {
                assert(t[i - 1] == s[i]);
            }
        }
        assert forall|i: int, j: int| 0 <= i < j < s.len() implies !(s[i] == '.' && s[j] == '.') by {
            if i > 0 {
                assert(t[i - 1] == s[i]);
                assert(t[j - 1] == s[j]);
            }
        }
        let i0 = choose|i: int| 0 <= i < t.len() && is_digit(#[trigger] t[i]);
        assert(s[i0 + 1] == t[i0]);
    } else {
        lemma_number_chars(s);
    }
}


/// `(params => body ... fn)` makes the function with those parameters and
/// that body; nothing is evaluated, so the scopes stay as they were.
pub proof fn lemma_fn_makes_function(
    fuel: nat,
    l: Seq<OexpV>,
    st: Seq<Map<Seq<char>, OexpV>>,
    ord: spec_fn(NumV, NumV) -> NumOrder,
)
    requires
        fuel >= 1,
        l.len() >= 4,
        l[1] == OexpV::Symbol("=>"@),
        l.last() == OexpV::Symbol("fn"@),
    ensures
        sem_eval(fuel, OexpV::List(l), st, ord) == Outcome::Done(
            Ok(OexpV::FunctionDef(Box::new(l[0]), Box::new(l[2]))),
            st,
        ),
{
    lemma_form_names();
    let args = l.drop_last();
    assert(args[0] == l[0] && args[1] == l[1] && args[2] == l[2]);
}

/// A comparison `(x verb y ?)` where `x` or `y` is not a number is an
/// operator error, whatever the comparison verb; the scopes stay as they were.
pub proof fn lemma_comparison_needs_numbers(
    fuel: nat,
    x: OexpV,
    v: Seq<char>,
    y: OexpV,
    st: Seq<Map<Seq<char>, OexpV>>,
    ord: spec_fn(NumV, NumV) -> NumOrder,
)
    requires
        fuel >= 1,
        crate::semantics::is_comparison_verb(v),
        !(x is Number) || !(y is Number),
    ensures
        sem_eval(fuel, OexpV::List(seq![x, OexpV::Symbol(v), y, OexpV::Symbol("?"@)]), st, ord) matches Outcome::Done(
            Err(ErrV::Operator(_)),
            st2,
        ) && st2 == st,
{
    lemma_form_names();
    let l = seq![x, OexpV::Symbol(v), y];
    let q = l.push(OexpV::Symbol("?"@));
    assert(q =~= seq![x, OexpV::Symbol(v), y, OexpV::Symbol("?"@)]);
    assert(q.drop_last() =~= l);
    assert(q.last() == OexpV::Symbol("?"@));
    assert(sem_eval(fuel, OexpV::List(q), st, ord) == sem_query((fuel - 1) as nat, l, st, ord));
    assert(sem_query((fuel - 1) as nat, l, st, ord) == Outcome::<OexpV>::Done(
        crate::semantics::compare_forms(v, x, y, ord),
        st,
    ));
}

}
