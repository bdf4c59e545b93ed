use vstd::prelude::*;

verus! {

broadcast use vstd::string::group_string_axioms;

/// Lexical order on labels: `a` comes no later than `b` where, at the first
/// place in which they differ, `a` has the smaller character, or where `a`
/// stops and `b` may go on. Characters compare by code point.
pub open spec fn lex_le(a: Seq<char>, b: Seq<char>) -> bool
    decreases a.len(),
{
    if a.len() == 0 {
        true
    } else if b.len() == 0 {
        false
    } else if a[0] != b[0] {
        (a[0] as int) < (b[0] as int)
    } else {
        lex_le(a.drop_first(), b.drop_first())
    }
}

/// Of two labels, one comes no later than the other.
pub proof fn lemma_lex_total(a: Seq<char>, b: Seq<char>)
    ensures
        lex_le(a, b) || lex_le(b, a),
    decreases a.len(),
{
    if a.len() > 0 && b.len() > 0 && a[0] == b[0] {
        lemma_lex_total(a.drop_first(), b.drop_first());
    }
}

/// Two labels that each come no later than the other are the same label.
pub proof fn lemma_lex_antisymmetric(a: Seq<char>, b: Seq<char>)
    requires
        lex_le(a, b),
        lex_le(b, a),
    ensures
        a == b,
    decreases a.len(),
{
    if a.len() == 0 || b.len() == 0 {
        assert(a =~= b);
    } else {
        lemma_lex_antisymmetric(a.drop_first(), b.drop_first());
        assert(a =~= seq![a[0]] + a.drop_first());
        assert(b =~= seq![b[0]] + b.drop_first());
    }
}

/// The order carries over: from `a` before `b` and `b` before `c`, `a` before `c`.
pub proof fn lemma_lex_transitive(a: Seq<char>, b: Seq<char>, c: Seq<char>)
    requires
        lex_le(a, b),
        lex_le(b, c),
    ensures
        lex_le(a, c),
    decreases a.len(),
{
    if a.len() > 0 && b.len() > 0 && c.len() > 0 && a[0] == b[0] && b[0] == c[0] {
        lemma_lex_transitive(a.drop_first(), b.drop_first(), c.drop_first());
    }
}

/// Whether `a` comes no later than `b` in lexical order.
pub fn label_le(a: &str, b: &str) -> (le: bool)
    ensures
        le == lex_le(a@, b@),
{
    let mut rest_a = a.chars();
    let mut rest_b = b.chars();
    loop
        invariant
            vstd::std_specs::iter::IteratorSpec::decrease(&rest_a) is Some,
            lex_le(a@, b@) == lex_le(
                vstd::std_specs::iter::IteratorSpec::remaining(&rest_a),
                vstd::std_specs::iter::IteratorSpec::remaining(&rest_b),
            ),
        decreases vstd::std_specs::iter::IteratorSpec::decrease(&rest_a)->0,
    {
        match rest_a.next() {
            None => {
                return true;
            },
            Some(ca) => match rest_b.next() {
                None => {
                    return false;
                },
                Some(cb) => {
                    if ca != cb {
                        return ca < cb;
                    }
                },
            },
        }
    }
}

} // verus!
