use vstd::prelude::*;

verus! {

/// A path is absolute when it starts at the root, `/`.
pub open spec fn is_absolute(p: Seq<char>) -> bool {
    p.len() > 0 && p[0] == '/'
}

/// The path with one leading `./` removed, if it has one.
pub open spec fn strip_current_dir(p: Seq<char>) -> Seq<char> {
    if p.len() >= 2 && p[0] == '.' && p[1] == '/' {
        p.subrange(2, p.len() as int)
    } else {
        p
    }
}

/// `rest` joined onto `base`: an absolute `rest` replaces `base`; otherwise a
/// separator is put between the two unless `base` is empty or already ends in one.
pub open spec fn join(base: Seq<char>, rest: Seq<char>) -> Seq<char> {
    if is_absolute(rest) {
        rest
    } else if base.len() == 0 || base.last() == '/' {
        base + rest
    } else {
        base + seq!['/'] + rest
    }
}

/// The absolute corpus path that a link token `p` found in a document stands for,
/// where `base` is the directory the token is relative to.
pub open spec fn absolute_path(p: Seq<char>, base: Seq<char>) -> Seq<char> {
    if is_absolute(p) {
        p
    } else {
        join(base, strip_current_dir(p))
    }
}

fn starts_at_root(p: &str) -> (r: bool)
    ensures
        r == is_absolute(p@),
{
    p.unicode_len() > 0 && p.get_char(0) == '/'
}

/// Resolves a link token to an absolute path: an absolute token is kept as it is,
/// any other loses a leading `./` and is joined onto `base_dir`. Pure and total.
pub fn convert_to_absolute_path(path: &str, base_dir: &str) -> (r: String)
    ensures
        r@ == absolute_path(path@, base_dir@),
{
    if starts_at_root(path) {
        return String::from_str(path);
    }
    let n = path.unicode_len();
    let rest: &str = if n >= 2 && path.get_char(0) == '.' && path.get_char(1) == '/' {
        path.substring_char(2, n)
    } else {
        path
    };
    assert(rest@ == strip_current_dir(path@));
    join_path(base_dir, rest)
}

/// `rest` joined onto `base`, as `join` says.
pub fn join_path(base: &str, rest: &str) -> (r: String)
    ensures
        r@ == join(base@, rest@),
{
    if starts_at_root(rest) {
        return String::from_str(rest);
    }
    let bl = base.unicode_len();
    let mut out = String::from_str(base);
    if bl > 0 && base.get_char(bl - 1) != '/' {
        proof {
            reveal_strlit("/");
        }
        out.append("/");
    }
    out.append(rest);
    out
}

/// An absolute path is its own normal form, and so is every result of
/// normalizing against an absolute base: normalizing twice gives what
/// normalizing once gives.
pub proof fn lemma_normalize_idempotent(p: Seq<char>, base: Seq<char>)
    requires
        is_absolute(p) || is_absolute(base),
    ensures
        is_absolute(absolute_path(p, base)),
        absolute_path(absolute_path(p, base), base) == absolute_path(p, base),
{
    let r = absolute_path(p, base);
    if !is_absolute(p) {
        let rest = strip_current_dir(p);
        if !is_absolute(rest) {
            if base.last() == '/' {
                assert(r[0] == base[0]);
            } else {
                assert(r[0] == base[0]);
            }
        }
    }
}

} // verus!
