use vstd::prelude::*;

verus! {

/// Relies on `str::chars`: the characters of the string, in order.
#[verifier::external_body]
pub(crate) fn chars_of(s: &str) -> (r: Vec<char>)
    ensures
        r@ == s@,
{
    s.chars().collect()
}

/// Relies on `String`'s `FromIterator<char>`: a string made of exactly the
/// characters `cs[from..to]`, in order.
#[verifier::external_body]
pub(crate) fn string_of(cs: &Vec<char>, from: usize, to: usize) -> (r: String)
    requires
        from <= to <= cs@.len(),
    ensures
        r@ == cs@.subrange(from as int, to as int),
{
    cs[from..to].iter().collect()
}

/// No line break among `s[a..b]`.
pub open spec fn no_newline(s: Seq<char>, a: int, b: int) -> bool {
    forall|k: int| a <= k < b ==> s[k] != '\n'
}

/// `w` stands in `s` from position `k` on.
pub open spec fn has_at(s: Seq<char>, k: int, w: Seq<char>) -> bool {
    0 <= k && k + w.len() <= s.len() && s.subrange(k, k + w.len()) == w
}

/// Whether `cs[k..]` starts with `w`, with no line break in that span.
pub(crate) fn word_at(cs: &Vec<char>, k: usize, w: &Vec<char>) -> (r: bool)
    ensures
        r == (has_at(cs@, k as int, w@) && no_newline(cs@, k as int, k + w@.len())),
{
    if k > cs.len() || w.len() > cs.len() - k {
        return false;
    }
    let mut t: usize = 0;
    while t < w.len()
        invariant
            k + w@.len() <= cs@.len(),
            t <= w@.len(),
            cs@.len() <= usize::MAX,
            forall|m: int| k <= m < k + t ==> cs@[m] == w@[m - k] && cs@[m] != '\n',
        decreases w@.len() - t,
    {
        if cs[k + t] != w[t] || w[t] == '\n' {
            proof {
                if has_at(cs@, k as int, w@) {
                    assert(cs@.subrange(k as int, k + w@.len())[t as int] == cs@[k + t]);
                }
            }
            return false;
        }
        t += 1;
    }
    assert(cs@.subrange(k as int, k + w@.len()) =~= w@);
    true
}

} // verus!
