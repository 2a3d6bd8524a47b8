//! Literal placeholder substitution in the page template.
use crate::codec::chars_of;
use vstd::prelude::*;

verus! {

/// `s` with each occurrence of `pat` replaced by `rep`, scanning from the
/// left; occurrences do not overlap.
pub open spec fn replaced(s: Seq<char>, pat: Seq<char>, rep: Seq<char>) -> Seq<char>
    decreases s.len(),
{
    if pat.len() == 0 || s.len() < pat.len() {
        s
    } else if s.take(pat.len() as int) == pat {
        rep + replaced(s.skip(pat.len() as int), pat, rep)
    } else {
        seq![s[0]] + replaced(s.skip(1), pat, rep)
    }
}

/// Whether `pat` stands in `t` at `i`.
fn occurs_at(t: &Vec<char>, i: usize, pat: &Vec<char>) -> (r: bool)
    requires
        i + pat@.len() <= t@.len(),
    ensures
        r == (t@.subrange(i as int, i + pat@.len()) == pat@),
{
    let n: usize = t.len();
    let mut j: usize = 0;
    while j < pat.len()
        invariant
            n == t@.len(),
            i + pat@.len() <= t@.len(),
            j <= pat@.len(),
            forall|k: int| 0 <= k < j ==> t@[i + k] == pat@[k],
        decreases pat@.len() - j,
    {
        if t[i + j] != pat[j] {
            assert(t@.subrange(i as int, i + pat@.len())[j as int] != pat@[j as int]);
            return false;
        }
        j = j + 1;
    }
    assert(t@.subrange(i as int, i + pat@.len()) =~= pat@);
    true
}

/// Replaces each occurrence of `pat` in `text` by `rep`.
pub fn replace_all(text: &str, pat: &str, rep: &str) -> (r: String)
    requires
        pat@.len() > 0,
    ensures
        r@ == replaced(text@, pat@, rep@),
{
    let t = chars_of(text);
    let p = chars_of(pat);
    let mut out = String::new();
    let mut i: usize = 0;
    assert(t@.skip(0) =~= t@);
    while i < t.len()
        invariant
            i <= t@.len(),
            t@ == text@,
            p@ == pat@,
            p@.len() > 0,
            out@ + replaced(t@.skip(i as int), p@, rep@) == replaced(t@, p@, rep@),
        decreases t@.len() - i,
    {
        let ghost s = t@.skip(i as int);
        if t.len() - i >= p.len() && occurs_at(&t, i, &p) {
            assert(s.take(p@.len() as int) =~= t@.subrange(i as int, i + p@.len()));
            assert(s.skip(p@.len() as int) =~= t@.skip(i + p@.len()));
            out.append(rep);
            i = i + p.len();
            assert(out@ + replaced(t@.skip(i as int), p@, rep@) =~= replaced(t@, p@, rep@));
        } else {
            if t.len() - i >= p.len() {
                assert(s.take(p@.len() as int) =~= t@.subrange(i as int, i + p@.len()));
            } else {
                assert(s.skip(1).len() < p@.len());
                assert(seq![s[0]] + s.skip(1) =~= s);
            }
            assert(s.skip(1) =~= t@.skip(i + 1));
            out.push(t[i]);
            i = i + 1;
            assert(out@ + replaced(t@.skip(i as int), p@, rep@) =~= replaced(t@, p@, rep@));
        }
    }
    assert(t@.skip(i as int) =~= Seq::<char>::empty());
    assert(out@ + Seq::<char>::empty() =~= out@);
    out
}

/// Puts the display color into a template, in place of `{{COLOR}}`.
pub fn fill_values(color: &str, template: &str) -> (r: String)
    ensures
        r@ == replaced(template@, "{{COLOR}}"@, color@),
{
    proof {
        reveal_strlit("{{COLOR}}");
    }
    replace_all(template, "{{COLOR}}", color)
}

} // verus!
