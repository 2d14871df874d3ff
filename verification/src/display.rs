use vstd::prelude::*;
use crate::oexp::{Oexp, OexpV, Num, NumV, lemma_views_of};

verus! {

/// `number_text` may write `t` for some number with the value `n`.
pub open spec fn writes<G: Fn(&Num) -> String>(number_text: G, n: NumV, t: Seq<char>) -> bool {
    exists|x: Num, s: String|
        #![trigger call_ensures(number_text, (&x,), s)]
        x@ == n && s@ == t && call_ensures(number_text, (&x,), s)
}

/// The text that `number_text` writes for numbers with a given value.
pub open spec fn text_of<G: Fn(&Num) -> String>(number_text: G) -> spec_fn(NumV) -> Seq<char> {
    |n: NumV| choose|t: Seq<char>| #[trigger] writes(number_text, n, t)
}

/// `number_text` can be called on any number, and writes the same text for
/// numbers with the same value.
pub open spec fn is_number_text<G: Fn(&Num) -> String>(number_text: G) -> bool {
    &&& forall|x: &Num| #[trigger] call_requires(number_text, (x,))
    &&& forall|x1: &Num, x2: &Num, s1: String, s2: String|
        #![trigger call_ensures(number_text, (x1,), s1), call_ensures(number_text, (x2,), s2)]
        x1@ == x2@ && call_ensures(number_text, (x1,), s1) && call_ensures(number_text, (x2,), s2)
            ==> s1@ == s2@
}

/// The text of an expression, numbers written as `nt` says.
pub open spec fn spec_text(e: OexpV, nt: spec_fn(NumV) -> Seq<char>) -> Seq<char>
    decreases e, 1nat,
{
    match e {
        OexpV::Boolean(b) => if b {
            "true"@
        } else {
            "false"@
        },
        OexpV::Symbol(s) => s,
        OexpV::Number(n) => nt(n),
        OexpV::List(l) => "("@ + spec_join(l, nt) + ")"@,
        OexpV::Function(_) => "Function: {}"@,
        OexpV::FunctionDef(_, _) => "Function Definition: {}"@,
    }
}

/// The texts of the expressions `l`, joined by ` , `.
pub open spec fn spec_join(l: Seq<OexpV>, nt: spec_fn(NumV) -> Seq<char>) -> Seq<char>
    decreases l, 0nat,
{
    if l.len() == 0 {
        seq![]
    } else if l.len() == 1 {
        spec_text(l[0], nt)
    } else {
        spec_join(l.drop_last(), nt) + " , "@ + spec_text(l.last(), nt)
    }
}

proof fn lemma_text_answer<G: Fn(&Num) -> String>(number_text: G, x: &Num, s: String)
    requires
        is_number_text(number_text),
        call_ensures(number_text, (x,), s),
    ensures
        (text_of(number_text))(x@) == s@,
{
    let x0: Num = *x;
    assert(call_ensures(number_text, (&x0,), s));
    assert(writes(number_text, x@, s@));
    let t = (text_of(number_text))(x@);
    let (x2, s2): (Num, String) = choose|y: Num, u: String|
        #![trigger call_ensures(number_text, (&y,), u)]
        y@ == x@ && u@ == t && call_ensures(number_text, (&y,), u);
    assert(call_ensures(number_text, (&x2,), s2));
}

impl Oexp {
    /// The text of this expression: a list is written between parentheses with
    /// its elements separated by ` , `, and a number as `number_text` writes it.
    pub fn to_text<G: Fn(&Num) -> String>(&self, number_text: &G) -> (s: String)
        requires
            is_number_text(*number_text),
        ensures
            s@ == spec_text(self@, text_of(*number_text)),
        decreases self, 1nat,
    {
        match self {
            Oexp::Boolean(b) => if *b {
                String::from_str("true")
            } else {
                String::from_str("false")
            },
            Oexp::Symbol(s) => s.clone(),
            Oexp::Number(n) => {
                let t = number_text(n);
                proof { lemma_text_answer(*number_text, n, t); }
                t
            },
            Oexp::List(v) => {
                proof { broadcast use vstd::std_specs::vec::axiom_vec_decreases_to_view; }
                let mut s = String::from_str("(");
                let inner = Oexp::join_text(v, number_text);
                s.append(inner.as_str());
                s.append(")");
                s
            },
            Oexp::Function(_) => String::from_str("Function: {}"),
            Oexp::FunctionDef(_) => String::from_str("Function Definition: {}"),
        }
    }

    /// The texts of the expressions `v`, joined by ` , `.
    fn join_text<G: Fn(&Num) -> String>(v: &Vec<Oexp>, number_text: &G) -> (s: String)
        requires
            is_number_text(*number_text),
        ensures
            s@ == spec_join(Oexp::views_of(v@), text_of(*number_text)),
        decreases v@, 0nat,
    {
        let ghost nt = text_of(*number_text);
        let ghost vv = Oexp::views_of(v@);
        proof { lemma_views_of(v@); }
        let mut s = String::new();
        let mut i: usize = 0;
        assert(vv.take(0).len() == 0);
        while i < v.len()
            invariant
                i <= v.len(),
                is_number_text(*number_text),
                nt == text_of(*number_text),
                vv == Oexp::views_of(v@),
                vv.len() == v@.len(),
                forall|j: int| 0 <= j < v@.len() ==> #[trigger] vv[j] == v@[j]@,
                s@ == spec_join(vv.take(i as int), nt),
            decreases v.len() - i,
        {
            assert(decreases_to!(v@ => v@[i as int]));
            let t = v[i].to_text(number_text);
            assert(vv.take(i as int + 1).drop_last() == vv.take(i as int));
            assert(vv.take(i as int + 1).last() == v@[i as int]@);
            if i > 0 {
                s.append(" , ");
            } else {
                assert(vv.take(1)[0] == v@[0]@);
                assert(s@ == Seq::<char>::empty());
            }
            s.append(t.as_str());
            assert(s@ =~= spec_join(vv.take(i as int + 1), nt));
            i = i + 1;
        }
        assert(vv.take(i as int) == vv);
        s
    }
}

}
