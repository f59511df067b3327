use vstd::prelude::*;

use crate::path::{absolute_path, convert_to_absolute_path};
use crate::text::{chars_of, no_newline, string_of};

verus! {

/// `k` is the position of the first `:` in `s`.
pub open spec fn is_first_colon(s: Seq<char>, k: int) -> bool {
    0 <= k < s.len() && s[k] == ':' && forall|m: int| 0 <= m < k ==> s[m] != ':'
}

/// Relies on `memchr::memchr`: the index of the first `:` byte of the line, or
/// `None` when there is none. In UTF-8 that byte is only ever the character `:`, so
/// the line's text before that index is its text before the first `:`.
#[verifier::external_body]
fn before_first_colon(line: &str) -> (r: Option<String>)
    ensures
        r is None <==> !line@.contains(':'),
        r matches Some(p) ==> exists|k: int|
            is_first_colon(line@, k) && p@ == line@.subrange(0, k),
{
    memchr::memchr(b':', line.as_bytes()).map(|idx| line[..idx].to_string())
}

/// The line that starts at `p` ends at `e`: at the next line break, or at the end.
pub open spec fn is_line_end(s: Seq<char>, p: int, e: int) -> bool {
    p <= e <= s.len() && (e == s.len() || s[e] == '\n') && no_newline(s, p, e)
}

/// What comes before the first `:` of each line of `s[p..]` that has one, in order.
pub open spec fn colon_prefixes_from(s: Seq<char>, p: int) -> Seq<Seq<char>>
    decreases s.len() - p,
{
    if 0 <= p < s.len() && exists|e: int| is_line_end(s, p, e) {
        let e = choose|e: int| is_line_end(s, p, e);
        let line = s.subrange(p, e);
        let rest = if p < e + 1 && e < s.len() {
            colon_prefixes_from(s, e + 1)
        } else {
            Seq::empty()
        };
        if exists|k: int| is_first_colon(line, k) {
            let k = choose|k: int| is_first_colon(line, k);
            seq![line.subrange(0, k)] + rest
        } else {
            rest
        }
    } else {
        Seq::empty()
    }
}

/// The file paths of a search tool's `path:line:text` output: for each line with a
/// `:`, what comes before the first one, resolved against `base_dir`. Lines without
/// a `:` are skipped.
pub fn parse_file_paths(output: &str, base_dir: &str) -> (r: Vec<String>)
    ensures
        r@.len() == colon_prefixes_from(output@, 0).len(),
        forall|k: int|
            0 <= k < r@.len() ==> r@[k]@ == absolute_path(
                #[trigger] colon_prefixes_from(output@, 0)[k],
                base_dir@,
            ),
{
    let cs = chars_of(output);
    let ghost s = cs@;
    let ghost all = colon_prefixes_from(s, 0);
    let n = cs.len();
    let mut paths: Vec<String> = Vec::new();
    let mut p: usize = 0;
    while p < n
        invariant
            p <= n,
            n == s.len(),
            cs@ == s,
            s == output@,
            all == colon_prefixes_from(s, 0),
            paths@.len() + colon_prefixes_from(s, p as int).len() == all.len(),
            forall|k: int|
                0 <= k < paths@.len() ==> paths@[k]@ == absolute_path(#[trigger] all[k], base_dir@),
            forall|k: int|
                0 <= k < colon_prefixes_from(s, p as int).len() ==> #[trigger] colon_prefixes_from(
                    s,
                    p as int,
                )[k] == all[paths@.len() + k],
        decreases n - p,
    {
        let mut e: usize = p;
        while e < n && cs[e] != '\n'
            invariant
                p <= e <= n,
                n == s.len(),
                cs@ == s,
                no_newline(s, p as int, e as int),
            decreases n - e,
        {
            e += 1;
        }
        let line = string_of(&cs, p, e);
        let ghost ln = s.subrange(p as int, e as int);
        proof {
            assert(is_line_end(s, p as int, e as int));
            assert forall|e2: int| is_line_end(s, p as int, e2) implies e2 == e by {
                if e2 < e {
                    assert(s[e2] != '\n');
                }
                if e2 > e {
                    assert(s[e as int] != '\n');
                }
            }
        }
        let ghost rest = if e < n {
            colon_prefixes_from(s, e + 1)
        } else {
            Seq::empty()
        };
        match before_first_colon(line.as_str()) {
            Some(prefix) => {
                proof {
                    let k = choose|k: int| is_first_colon(ln, k) && prefix@ == ln.subrange(0, k);
                    let k2 = choose|k2: int| is_first_colon(ln, k2);
                    if k2 < k {
                        assert(ln[k2] == ':');
                    }
                    if k < k2 {
                        assert(ln[k] == ':');
                    }
                    assert(colon_prefixes_from(s, p as int) == seq![prefix@] + rest);
                    assert(colon_prefixes_from(s, p as int)[0] == prefix@);
                    assert forall|q: int| 0 <= q < rest.len() implies #[trigger] rest[q]
                        == all[paths@.len() + 1 + q] by {
                        assert(colon_prefixes_from(s, p as int)[q + 1] == rest[q]);
                    }
                }
                let resolved = convert_to_absolute_path(prefix.as_str(), base_dir);
                paths.push(resolved);
            },
            None => {
                proof {
                    assert forall|k: int| !is_first_colon(ln, k) by {
                        if is_first_colon(ln, k) {
                            assert(ln.contains(':'));
                        }
                    }
                    assert(colon_prefixes_from(s, p as int) == rest);
                }
            },
        }
        if e < n {
            p = e + 1;
        } else {
            p = n;
            assert(colon_prefixes_from(s, p as int) =~= Seq::<Seq<char>>::empty());
        }
    }
    proof {
        assert(colon_prefixes_from(s, p as int) =~= Seq::<Seq<char>>::empty());
    }
    paths
}

} // verus!
