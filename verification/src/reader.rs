use vstd::prelude::*;
use crate::text::{is_white, char_is_white, chars_of, string_from_chars, str_eq};
use crate::numeral::{is_float_literal, float_literal};
use crate::oexp::{Oexp, OexpV, Num, NumV, oexp_wf, oexps_wf};
use crate::error::{RomeError, ErrV};

verus! {

/// The characters that a parenthesis stands for once it is set apart by spaces.
pub open spec fn set_apart(c: char) -> Seq<char> {
    if c == '(' || c == ')' {
        seq![' ', c, ' ']
    } else {
        seq![c]
    }
}

/// `s` with every parenthesis replaced by itself between two spaces.
pub open spec fn spaced(s: Seq<char>) -> Seq<char>
    decreases s.len(),
{
    if s.len() == 0 {
        seq![]
    } else {
        spaced(s.drop_last()) + set_apart(s.last())
    }
}

/// The word in progress `cur` (if any), as a list of words.
pub open spec fn flush(cur: Seq<char>) -> Seq<Seq<char>> {
    if cur.len() == 0 {
        seq![]
    } else {
        seq![cur]
    }
}

/// The maximal runs of non-white characters of `cur + s`, where `cur` is a run
/// already begun.
pub open spec fn split_from(s: Seq<char>, cur: Seq<char>) -> Seq<Seq<char>>
    decreases s.len(),
{
    if s.len() == 0 {
        flush(cur)
    } else if is_white(s[0]) {
        flush(cur) + split_from(s.drop_first(), seq![])
    } else {
        split_from(s.drop_first(), cur.push(s[0]))
    }
}

/// `str::split_whitespace`: the maximal runs of non-white characters of `s`.
pub open spec fn split_white(s: Seq<char>) -> Seq<Seq<char>> {
    split_from(s, seq![])
}

/// The tokens of a program: the program is put in parentheses, every
/// parenthesis is set apart by spaces, and the result is split at white space.
pub open spec fn spec_tokenise(input: Seq<char>) -> Seq<Seq<char>> {
    split_white(spaced(seq!['('] + input + seq![')']))
}

pub open spec fn views_of_strings(v: Seq<String>) -> Seq<Seq<char>> {
    v.map_values(|t: String| t@)
}

fn push_set_apart(v: &mut Vec<char>, c: char)
    ensures
        final(v)@ == old(v)@ + set_apart(c),
{
    if c == '(' || c == ')' {
        v.push(' ');
        v.push(c);
        v.push(' ');
    } else {
        v.push(c);
    }
}

/// The words of `s`, split at white space.
fn split_white_chars(s: &Vec<char>) -> (r: Vec<String>)
    ensures
        views_of_strings(r@) == split_white(s@),
{
    let mut r: Vec<String> = Vec::new();
    let mut cur: Vec<char> = Vec::new();
    let mut i: usize = 0;
    assert(s@.skip(0) == s@);
    assert(views_of_strings(r@) == Seq::<Seq<char>>::empty());
    while i < s.len()
        invariant
            i <= s.len(),
            views_of_strings(r@) + split_from(s@.skip(i as int), cur@) == split_white(s@),
        decreases s.len() - i,
    {
        let c = s[i];
        let ghost rest = s@.skip(i as int);
        assert(rest[0] == c);
        assert(rest.drop_first() == s@.skip(i as int + 1));
        if char_is_white(c) {
            if cur.len() > 0 {
                let w = string_from_chars(&cur);
                let ghost before = r@;
                r.push(w);
                assert(views_of_strings(r@) == views_of_strings(before) + seq![cur@]);
            } else {
                assert(views_of_strings(r@) + flush(cur@) == views_of_strings(r@));
            }
            cur = Vec::new();
        } else {
            cur.push(c);
        }
        i = i + 1;
    }
    assert(s@.skip(i as int).len() == 0);
    if cur.len() > 0 {
        let w = string_from_chars(&cur);
        let ghost before = r@;
        r.push(w);
        assert(views_of_strings(r@) == views_of_strings(before) + seq![cur@]);
    } else {
        assert(views_of_strings(r@) + flush(cur@) == views_of_strings(r@));
    }
    r
}

/// Splits a program into tokens: parentheses, and the maximal runs of other
/// characters that white space does not break. The program is read as if it
/// stood in parentheses, so the first token is `(` and the last `)`.
pub fn tokenise(input_str: String) -> (tokens: Vec<String>)
    ensures
        views_of_strings(tokens@) == spec_tokenise(input_str@),
{
    let chars = chars_of(input_str.as_str());
    let ghost full = seq!['('] + input_str@ + seq![')'];
    let mut sp: Vec<char> = Vec::new();
    push_set_apart(&mut sp, '(');
    assert(full[0] == '(');
    assert(full.take(1).drop_last() == Seq::<char>::empty());
    assert(full.take(1).last() == '(');
    assert(spaced(Seq::<char>::empty()) == Seq::<char>::empty());
    assert(spaced(full.take(1)) =~= set_apart('('));
    assert(sp@ == spaced(full.take(1)));
    let mut i: usize = 0;
    while i < chars.len()
        invariant
            i <= chars.len(),
            chars@ == input_str@,
            full == seq!['('] + input_str@ + seq![')'],
            sp@ == spaced(full.take(i as int + 1)),
        decreases chars.len() - i,
    {
        let c = chars[i];
        push_set_apart(&mut sp, c);
        assert(full.take(i as int + 2).drop_last() == full.take(i as int + 1));
        assert(full.take(i as int + 2).last() == c);
        i = i + 1;
    }
    push_set_apart(&mut sp, ')');
    assert(full.take(i as int + 2).drop_last() == full.take(i as int + 1));
    assert(full.take(i as int + 2) == full);
    split_white_chars(&sp)
}


/// The expression that a single token other than a parenthesis stands for.
pub open spec fn spec_atom(t: Seq<char>) -> OexpV {
    if t == "true"@ {
        OexpV::Boolean(true)
    } else if t == "false"@ {
        OexpV::Boolean(false)
    } else if is_float_literal(t) {
        OexpV::Number(NumV::Lit(t))
    } else {
        OexpV::Symbol(t)
    }
}

/// Reading one expression from the front of `ts`: the expression and the
/// tokens after it.
pub open spec fn spec_parse(ts: Seq<Seq<char>>) -> Result<(OexpV, Seq<Seq<char>>), ErrV>
    decreases ts.len(), 0nat,
{
    if ts.len() == 0 {
        Err(ErrV::Reader("Could not parse token"@))
    } else if ts[0] == "("@ {
        spec_read_seq(ts.drop_first(), seq![])
    } else if ts[0] == ")"@ {
        Err(ErrV::Reader("unexpectedly encountered a closing parens"@))
    } else {
        Ok((spec_atom(ts[0]), ts.drop_first()))
    }
}

/// Reading the rest of a list whose first elements `acc` are already read, up
/// to and including its closing parenthesis.
pub open spec fn spec_read_seq(ts: Seq<Seq<char>>, acc: Seq<OexpV>) -> Result<
    (OexpV, Seq<Seq<char>>),
    ErrV,
>
    decreases ts.len(), 1nat,
{
    if ts.len() == 0 {
        Err(ErrV::Reader("could not find closing parens"@))
    } else if ts[0] == ")"@ {
        Ok((OexpV::List(acc), ts.drop_first()))
    } else {
        match spec_parse(ts) {
            Ok((x, rest)) => if rest.len() < ts.len() {
                spec_read_seq(rest, acc.push(x))
            } else {
                Err(ErrV::Reader("could not find closing parens"@))
            },
            Err(e) => Err(e),
        }
    }
}

fn parse_atom(token: &String) -> (e: Oexp)
    ensures
        e@ == spec_atom(token@),
{
    if str_eq(token.as_str(), "true") {
        Oexp::Boolean(true)
    } else if str_eq(token.as_str(), "false") {
        Oexp::Boolean(false)
    } else if float_literal(&chars_of(token.as_str())) {
        Oexp::Number(Num::Lit(token.clone()))
    } else {
        Oexp::Symbol(token.clone())
    }
}

fn parse_from(ts: &[String], pos: usize) -> (r: Result<(Oexp, usize), RomeError>)
    requires
        pos <= ts@.len(),
    ensures
        match r {
            Ok((e, p)) => pos < p <= ts@.len() && spec_parse(views_of_strings(ts@).skip(pos as int))
                == Ok::<(OexpV, Seq<Seq<char>>), ErrV>((e@, views_of_strings(ts@).skip(p as int))),
            Err(err) => spec_parse(views_of_strings(ts@).skip(pos as int)) == Err::<
                (OexpV, Seq<Seq<char>>),
                ErrV,
            >(err@),
        },
    decreases ts@.len() - pos, 0nat,
{
    let ghost v = views_of_strings(ts@);
    if pos == ts.len() {
        return Err(RomeError::reader("Could not parse token"));
    }
    let token = &ts[pos];
    assert(v.skip(pos as int)[0] == token@);
    assert(v.skip(pos as int).drop_first() == v.skip(pos + 1));
    if str_eq(token.as_str(), "(") {
        read_seq_from(ts, pos + 1)
    } else if str_eq(token.as_str(), ")") {
        Err(RomeError::reader("unexpectedly encountered a closing parens"))
    } else {
        Ok((parse_atom(token), pos + 1))
    }
}

fn read_seq_from(ts: &[String], pos: usize) -> (r: Result<(Oexp, usize), RomeError>)
    requires
        pos <= ts@.len(),
    ensures
        match r {
            Ok((e, p)) => pos < p <= ts@.len() && spec_read_seq(
                views_of_strings(ts@).skip(pos as int),
                seq![],
            ) == Ok::<(OexpV, Seq<Seq<char>>), ErrV>((e@, views_of_strings(ts@).skip(p as int))),
            Err(err) => spec_read_seq(views_of_strings(ts@).skip(pos as int), seq![]) == Err::<
                (OexpV, Seq<Seq<char>>),
                ErrV,
            >(err@),
        },
    decreases ts@.len() - pos, 1nat,
{
    let ghost v = views_of_strings(ts@);
    let mut res: Vec<Oexp> = Vec::new();
    let mut cur = pos;
    assert(Oexp::views_of(res@) == Seq::<OexpV>::empty());
    loop
        invariant
            pos <= cur <= ts@.len(),
            v == views_of_strings(ts@),
            spec_read_seq(v.skip(pos as int), seq![]) == spec_read_seq(
                v.skip(cur as int),
                Oexp::views_of(res@),
            ),
        decreases ts@.len() - cur,
    {
        if cur == ts.len() {
            return Err(RomeError::reader("could not find closing parens"));
        }
        let token = &ts[cur];
        assert(v.skip(cur as int)[0] == token@);
        if str_eq(token.as_str(), ")") {
            assert(v.skip(cur as int).drop_first() == v.skip(cur + 1));
            return Ok((Oexp::List(res), cur + 1));
        }
        match parse_from(ts, cur) {
            Ok((e, p)) => {
                let ghost before = res@;
                res.push(e);
                assert(res@.drop_last() == before);
                cur = p;
            },
            Err(err) => {
                return Err(err);
            },
        }
    }
}

/// Reads one expression from the front of `tokens`, and gives it back with the
/// tokens that follow it.
pub fn parse<'a>(tokens: &'a [String]) -> (r: Result<(Oexp, &'a [String]), RomeError>)
    ensures
        r matches Ok((e, _)) ==> oexp_wf(e@),
        match r {
            Ok((e, rest)) => spec_parse(views_of_strings(tokens@)) == Ok::<
                (OexpV, Seq<Seq<char>>),
                ErrV,
            >((e@, views_of_strings(rest@))),
            Err(err) => spec_parse(views_of_strings(tokens@)) == Err::<
                (OexpV, Seq<Seq<char>>),
                ErrV,
            >(err@),
        },
{
    assert(views_of_strings(tokens@).skip(0) == views_of_strings(tokens@));
    proof { lemma_parse_wf(views_of_strings(tokens@)); }
    match parse_from(tokens, 0) {
        Ok((e, p)) => {
            let rest = &tokens[p..tokens.len()];
            assert(views_of_strings(rest@) == views_of_strings(tokens@).skip(p as int));
            Ok((e, rest))
        },
        Err(err) => Err(err),
    }
}


/// What reading gives holds only well-formed numbers.
pub proof fn lemma_parse_wf(ts: Seq<Seq<char>>)
    ensures
        spec_parse(ts) matches Ok((e, _)) ==> oexp_wf(e),
    decreases ts.len(), 0nat,
{
    if ts.len() > 0 && ts[0] == "("@ {
        lemma_read_seq_wf(ts.drop_first(), seq![]);
    }
}

/// Reading the rest of a list whose first elements are well formed gives a
/// well-formed list.
pub proof fn lemma_read_seq_wf(ts: Seq<Seq<char>>, acc: Seq<OexpV>)
    requires
        oexps_wf(acc),
    ensures
        spec_read_seq(ts, acc) matches Ok((e, _)) ==> oexp_wf(e),
    decreases ts.len(), 1nat,
{
    if ts.len() > 0 && ts[0] != ")"@ {
        lemma_parse_wf(ts);
        match spec_parse(ts) {
            Ok((x, rest)) => {
                if rest.len() < ts.len() {
                    assert(acc.push(x).drop_last() == acc);
                    lemma_read_seq_wf(rest, acc.push(x));
                }
            },
            _ => {},
        }
    }
}

}
