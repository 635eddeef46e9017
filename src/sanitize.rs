use vstd::prelude::*;

use crate::calculator::Calculator;

verus! {

/// The characters of `s`, in order.
pub(crate) fn chars_of(s: &str) -> (r: Vec<char>)
    ensures
        r@ == s@,
{
    let mut r: Vec<char> = Vec::new();
    proof {
        vstd::string::axiom_spec_iter(s);
    }
    for c in it: s.chars()
        invariant
            it.seq() == s@,
            r@ == s@.take(it.index() as int),
    {
        r.push(c);
        proof {
            assert(r@ =~= s@.take(it.index() + 1));
        }
    }
    proof {
        assert(r@ =~= s@.take(s@.len() as int));
    }
    r
}

/// `s` with every occurrence of the pair `a b` replaced by `rep`, scanning
/// from the left. A scan never revisits the text it wrote, so when `rep` holds
/// no new occurrence this is the same as repeatedly replacing the leftmost one.
pub open spec fn replace_pair(s: Seq<char>, a: char, b: char, rep: Seq<char>) -> Seq<char>
    decreases s.len(),
{
    if s.len() < 2 {
        s
    } else if s[0] == a && s[1] == b {
        rep + replace_pair(s.skip(2), a, b, rep)
    } else {
        seq![s[0]] + replace_pair(s.skip(1), a, b, rep)
    }
}

/// No character `a` of `s` is directly followed by `b`.
pub open spec fn no_pair(s: Seq<char>, a: char, b: char) -> bool {
    forall|i: int| 0 <= i && i + 1 < s.len() ==> !(#[trigger] s[i] == a && s[i + 1] == b)
}

pub open spec fn neg_open_rep() -> Seq<char> {
    seq!['-', '1', '*', '(']
}

pub open spec fn open_neg_rep() -> Seq<char> {
    seq!['(', '0', '-']
}

/// The text after both rewrites: "-(" becomes "-1*(", then "(-" becomes "(0-".
pub open spec fn sanitized(s: Seq<char>) -> Seq<char> {
    replace_pair(replace_pair(s, '-', '(', neg_open_rep()), '(', '-', open_neg_rep())
}

/// Rewrites each pair `a b` of `s` into `rep`, scanning from the left.
fn replace_pairs(s: &Vec<char>, a: char, b: char, rep: &Vec<char>) -> (r: Vec<char>)
    ensures
        r@ == replace_pair(s@, a, b, rep@),
{
    let mut r: Vec<char> = Vec::new();
    let mut i: usize = 0;
    proof {
        assert(s@.skip(0) =~= s@);
        assert(r@ + replace_pair(s@, a, b, rep@) =~= replace_pair(s@, a, b, rep@));
    }
    while i < s.len()
        invariant
            i <= s.len(),
            replace_pair(s@, a, b, rep@) == r@ + replace_pair(s@.skip(i as int), a, b, rep@),
        decreases s.len() - i,
    {
        let ghost rest = s@.skip(i as int);
        if i + 1 < s.len() && s[i] == a && s[i + 1] == b {
            let mut k: usize = 0;
            let ghost r0 = r@;
            while k < rep.len()
                invariant
                    k <= rep.len(),
                    r@ == r0 + rep@.take(k as int),
                decreases rep.len() - k,
            {
                r.push(rep[k]);
                k += 1;
                proof {
                    assert(r@ =~= r0 + rep@.take(k as int));
                }
            }
            proof {
                assert(rep@.take(k as int) =~= rep@);
                assert(rest.skip(2) =~= s@.skip(i + 2));
            }
            i += 2;
        } else {
            r.push(s[i]);
            proof {
                if rest.len() >= 2 {
                    assert(rest.skip(1) =~= s@.skip(i + 1));
                } else {
                    assert(rest =~= seq![s[i as int]]);
                    assert(s@.skip(i + 1) =~= Seq::<char>::empty());
                }
            }
            i += 1;
        }
    }
    proof {
        assert(s@.skip(i as int) =~= Seq::<char>::empty());
        assert(r@ + Seq::<char>::empty() =~= r@);
    }
    r
}

/// Relies on `String`'s `FromIterator<&char>` (`collect`): the string built
/// holds the characters in order.
#[verifier::external_body]
fn string_of(v: &Vec<char>) -> (r: String)
    ensures
        r@ == v@,
{
    v.iter().collect()
}

impl Calculator {
    /// Rewrites a unary minus touching a bracket into a binary form:
    /// every "-(" becomes "-1*(", then every "(-" becomes "(0-".
    pub fn sanitize_input(input: &str) -> (r: String)
        ensures
            r@ == sanitized(input@),
    {
        let chars = chars_of(input);
        let neg_open = vec!['-', '1', '*', '('];
        let open_neg = vec!['(', '0', '-'];
        proof {
            assert(neg_open@ =~= neg_open_rep());
            assert(open_neg@ =~= open_neg_rep());
        }
        let first = replace_pairs(&chars, '-', '(', &neg_open);
        let second = replace_pairs(&first, '(', '-', &open_neg);
        string_of(&second)
    }
}

} // verus!
