use vstd::prelude::*;

use crate::path::{absolute_path, convert_to_absolute_path, is_absolute, join, join_path};
use crate::text::{chars_of, has_at, no_newline, string_of, word_at};

verus! {

/// An inline link `[label](target.md)` spans `s[i..=e]`: the label is `s[i+1..j]`,
/// the target `s[j+2..e]`, which ends in `.md`; no line break inside.
pub open spec fn is_link_at(s: Seq<char>, i: int, j: int, e: int) -> bool {
    &&& 0 <= i < j
    &&& j + 5 <= e < s.len()
    &&& s[i] == '['
    &&& s[j] == ']'
    &&& s[j + 1] == '('
    &&& s[e - 3] == '.'
    &&& s[e - 2] == 'm'
    &&& s[e - 1] == 'd'
    &&& s[e] == ')'
    &&& no_newline(s, i, e + 1)
}

/// `s[k..]` starts with `](`, which ends a label and opens a target.
pub open spec fn closes_label(s: Seq<char>, k: int) -> bool {
    0 <= k && k + 1 < s.len() && s[k] == ']' && s[k + 1] == '('
}

/// `s[..=k]` ends with `.md)`, closing a target that starts at `j + 2`.
pub open spec fn closes_target(s: Seq<char>, j: int, k: int) -> bool {
    j + 5 <= k < s.len() && s[k - 3] == '.' && s[k - 2] == 'm' && s[k - 1] == 'd' && s[k] == ')'
}

pub open spec fn lex_le(i: int, j: int, e: int, i2: int, j2: int, e2: int) -> bool {
    i < i2 || (i == i2 && (j < j2 || (j == j2 && e <= e2)))
}

/// The link that a scan from position `p` finds: the one that starts first and,
/// among those, has the shortest label and then the shortest target.
pub open spec fn is_first_link(s: Seq<char>, p: int, i: int, j: int, e: int) -> bool {
    &&& p <= i
    &&& is_link_at(s, i, j, e)
    &&& forall|i2: int, j2: int, e2: int|
        p <= i2 && #[trigger] is_link_at(s, i2, j2, e2) ==> lex_le(i, j, e, i2, j2, e2)
}

/// The targets of the links in `s[p..]`, in order; each scan resumes after the
/// closing parenthesis of the link before.
pub open spec fn link_targets_from(s: Seq<char>, p: int) -> Seq<Seq<char>>
    decreases s.len() - p,
{
    if 0 <= p <= s.len() && exists|i: int, j: int, e: int| is_first_link(s, p, i, j, e) {
        let (i, j, e) = choose|i: int, j: int, e: int| is_first_link(s, p, i, j, e);
        if p < e + 1 {
            seq![s.subrange(j + 2, e)] + link_targets_from(s, e + 1)
        } else {
            Seq::empty()
        }
    } else {
        Seq::empty()
    }
}

/// The link targets of a whole text.
pub open spec fn link_targets(s: Seq<char>) -> Seq<Seq<char>> {
    link_targets_from(s, 0)
}

/// The shortest link starting at `i`, if any.
fn link_at(cs: &Vec<char>, i: usize) -> (r: Option<(usize, usize)>)
    requires
        i < cs@.len(),
        cs@[i as int] == '[',
    ensures
        r matches Some((j, e)) ==> is_link_at(cs@, i as int, j as int, e as int) && forall|
            j2: int,
            e2: int,
        | #[trigger] is_link_at(cs@, i as int, j2, e2) ==> lex_le(
            i as int,
            j as int,
            e as int,
            i as int,
            j2,
            e2,
        ),
        r is None ==> forall|j2: int, e2: int| !#[trigger] is_link_at(cs@, i as int, j2, e2),
{
    let ghost s = cs@;
    let n = cs.len();
    // the first `](` after the opening bracket on the same line
    let mut j: usize = i + 1;
    while j < n && cs[j] != '\n' && !(cs[j] == ']' && j + 1 < n && cs[j + 1] == '(')
        invariant
            i < j <= n == s.len(),
            cs@ == s,
            no_newline(s, i as int, j as int),
            s[i as int] == '[',
            forall|k: int| i < k < j ==> !#[trigger] closes_label(s, k),
        decreases n - j,
    {
        j += 1;
    }
    if j >= n || cs[j] == '\n' {
        assert forall|j2: int, e2: int| !#[trigger] is_link_at(s, i as int, j2, e2) by {
            if is_link_at(s, i as int, j2, e2) {
                if j2 >= j {
                    assert(s[j as int] != '\n');
                } else {
                    assert(!closes_label(s, j2));
                }
            }
        }
        return None;
    }
    // the first `.md)` that closes a target of at least `.md`
    let mut e: usize = j + 2;
    while e < n && cs[e] != '\n' && !(e - j >= 5 && cs[e - 3] == '.' && cs[e - 2] == 'm' && cs[e
        - 1] == 'd' && cs[e] == ')')
        invariant
            i < j,
            j + 2 <= e <= n == s.len(),
            cs@ == s,
            s[j as int] == ']',
            j + 1 < n,
            s[j + 1] == '(',
            no_newline(s, i as int, e as int),
            forall|k: int| j + 2 <= k < e ==> !#[trigger] closes_target(s, j as int, k),
        decreases n - e,
    {
        e += 1;
    }
    if e >= n || cs[e] == '\n' {
        assert forall|j2: int, e2: int| !#[trigger] is_link_at(s, i as int, j2, e2) by {
            if is_link_at(s, i as int, j2, e2) {
                if j2 < j {
                    assert(!closes_label(s, j2));
                } else if e2 >= e {
                    assert(s[e as int] != '\n');
                } else {
                    assert(closes_target(s, j as int, e2));
                }
            }
        }
        return None;
    }
    proof {
        assert forall|j2: int, e2: int| #[trigger] is_link_at(s, i as int, j2, e2) implies lex_le(
            i as int,
            j as int,
            e as int,
            i as int,
            j2,
            e2,
        ) by {
            if j2 < j {
                assert(!closes_label(s, j2));
            }
            if j2 == j && e2 < e {
                assert(!closes_target(s, j as int, e2));
            }
        }
    }
    Some((j, e))
}

/// The first link found by a scan from `p`, if any.
fn first_link(cs: &Vec<char>, p: usize) -> (r: Option<(usize, usize, usize)>)
    requires
        p <= cs@.len(),
    ensures
        r matches Some((i, j, e)) ==> is_first_link(cs@, p as int, i as int, j as int, e as int),
        r is None ==> !exists|i: int, j: int, e: int| is_first_link(cs@, p as int, i, j, e),
        r is None ==> forall|i: int, j: int, e: int|
            p <= i ==> !#[trigger] is_link_at(cs@, i, j, e),
{
    let ghost s = cs@;
    let mut i: usize = p;
    while i < cs.len()
        invariant
            p <= i <= cs@.len(),
            cs@ == s,
            forall|i2: int, j2: int, e2: int|
                p <= i2 < i ==> !#[trigger] is_link_at(s, i2, j2, e2),
        decreases cs@.len() - i,
    {
        if cs[i] == '[' {
            match link_at(cs, i) {
                Some((j, e)) => {
                    assert forall|i2: int, j2: int, e2: int|
                        p <= i2 && #[trigger] is_link_at(s, i2, j2, e2) implies lex_le(
                        i as int,
                        j as int,
                        e as int,
                        i2,
                        j2,
                        e2,
                    ) by {
                        if i2 == i {
                            assert(is_link_at(s, i as int, j2, e2));
                        }
                    }
                    return Some((i, j, e));
                },
                None => {},
            }
        }
        i += 1;
    }
    None
}

/// Forward links of a document: the target of every inline link to a `.md`
/// document in `content`, in order of appearance, resolved against `base_dir`.
pub fn parse_links(content: &str, base_dir: &str) -> (r: Vec<String>)
    ensures
        r@.len() == link_targets(content@).len(),
        forall|k: int|
            0 <= k < r@.len() ==> r@[k]@ == absolute_path(
                #[trigger] link_targets(content@)[k],
                base_dir@,
            ),
{
    let cs = chars_of(content);
    let ghost s = cs@;
    let mut links: Vec<String> = Vec::new();
    let mut p: usize = 0;
    while p < cs.len()
        invariant
            p <= cs@.len(),
            cs@ == s,
            s == content@,
            link_targets(s) == link_targets_from(s, 0),
            links@.len() + link_targets_from(s, p as int).len() == link_targets(s).len(),
            forall|k: int|
                0 <= k < links@.len() ==> links@[k]@ == absolute_path(
                    #[trigger] link_targets(s)[k],
                    base_dir@,
                ),
            forall|k: int|
                0 <= k < link_targets_from(s, p as int).len() ==> #[trigger] link_targets_from(
                    s,
                    p as int,
                )[k] == link_targets(s)[links@.len() + k],
        decreases cs@.len() - p,
    {
        match first_link(&cs, p) {
            Some((i, j, e)) => {
                proof {
                    let (ci, cj, ce) = choose|ci: int, cj: int, ce: int|
                        is_first_link(s, p as int, ci, cj, ce);
                    assert(lex_le(i as int, j as int, e as int, ci, cj, ce));
                    assert(lex_le(ci, cj, ce, i as int, j as int, e as int));
                    assert(ci == i && cj == j && ce == e);
                    let rest = link_targets_from(s, e + 1);
                    assert(link_targets_from(s, p as int) == seq![s.subrange(j + 2, e as int)]
                        + rest);
                    assert(link_targets_from(s, p as int)[0] == s.subrange(j + 2, e as int));
                    assert forall|k: int| 0 <= k < rest.len() implies #[trigger] rest[k]
                        == link_targets(s)[links@.len() + 1 + k] by {
                        assert(link_targets_from(s, p as int)[k + 1] == rest[k]);
                    }
                }
                let target = string_of(&cs, j + 2, e);
                let resolved = convert_to_absolute_path(target.as_str(), base_dir);
                links.push(resolved);
                p = e + 1;
            },
            None => {
                assert(link_targets_from(s, p as int) == Seq::<Seq<char>>::empty());
                return links;
            },
        }
    }
    assert(link_targets_from(s, p as int) =~= Seq::<Seq<char>>::empty()) by {
        if exists|i: int, j: int, e: int| is_first_link(s, p as int, i, j, e) {
            let (i, j, e) = choose|i: int, j: int, e: int| is_first_link(s, p as int, i, j, e);
            assert(is_link_at(s, i, j, e));
        }
    }
    links
}

/// The link target `./name)`.
pub open spec fn dotted_target(name: Seq<char>) -> Seq<char> {
    seq!['.', '/'] + name + seq![')']
}

/// The link target `name)`.
pub open spec fn bare_target(name: Seq<char>) -> Seq<char> {
    name + seq![')']
}

/// `w` stands at `k` with no line break in it.
pub open spec fn word_on_line(s: Seq<char>, k: int, w: Seq<char>) -> bool {
    has_at(s, k, w) && no_newline(s, k, k + w.len())
}

/// A link `[label](./name)` or `[label](name)` whose label spans `s[i+1..j]`.
pub open spec fn refers_at(s: Seq<char>, name: Seq<char>, i: int, j: int) -> bool {
    &&& 0 <= i < j
    &&& s[i] == '['
    &&& closes_label(s, j)
    &&& no_newline(s, i, j)
    &&& (word_on_line(s, j + 2, dotted_target(name)) || word_on_line(s, j + 2, bare_target(name)))
}

/// Some line of `s` links to the document named `name`, relative to its own directory.
pub open spec fn links_to(s: Seq<char>, name: Seq<char>) -> bool {
    exists|i: int, j: int| refers_at(s, name, i, j)
}

/// Whether some line of `content` holds a link to the sibling document `file_name`,
/// written `[label](./file_name)` or `[label](file_name)`.
pub fn links_to_document(content: &str, file_name: &str) -> (r: bool)
    ensures
        r == links_to(content@, file_name@),
{
    let cs = chars_of(content);
    let ghost s = cs@;
    let ghost name = file_name@;
    let mut dotted: Vec<char> = vec!['.', '/'];
    let mut tail = chars_of(file_name);
    dotted.append(&mut tail);
    dotted.push(')');
    let mut bare = chars_of(file_name);
    bare.push(')');
    assert(dotted@ =~= dotted_target(name));
    assert(bare@ =~= bare_target(name));
    let n = cs.len();
    let mut open = false;
    let ghost mut line_start: int = 0;
    let mut j: usize = 0;
    while j < n
        invariant
            n == cs@.len(),
            cs@ == s,
            s == content@,
            name == file_name@,
            dotted@ == dotted_target(name),
            bare@ == bare_target(name),
            0 <= line_start <= j <= n,
            line_start == 0 || s[line_start - 1] == '\n',
            no_newline(s, line_start, j as int),
            open == exists|i: int| line_start <= i < j && s[i] == '[',
            forall|i: int, j2: int| j2 < j ==> !#[trigger] refers_at(s, name, i, j2),
        decreases n - j,
    {
        if cs[j] == '\n' {
            assert forall|i: int, j2: int| j2 < j + 1 implies !#[trigger] refers_at(
                s,
                name,
                i,
                j2,
            ) by {
                if j2 == j {
                    assert(!closes_label(s, j2));
                }
            }
            open = false;
            proof {
                line_start = j + 1;
            }
        } else {
            if open && j + 1 < n && cs[j] == ']' && cs[j + 1] == '(' && (word_at(&cs, j + 2, &dotted)
                || word_at(&cs, j + 2, &bare)) {
                let ghost i = choose|i: int| line_start <= i < j && s[i] == '[';
                assert(refers_at(s, name, i, j as int));
                assert(links_to(s, name));
                return true;
            }
            proof {
                assert forall|i: int, j2: int| j2 < j + 1 implies !#[trigger] refers_at(
                    s,
                    name,
                    i,
                    j2,
                ) by {
                    if j2 == j && refers_at(s, name, i, j2) {
                        if i < line_start {
                            assert(s[line_start - 1] == '\n');
                        }
                        assert(line_start <= i < j && s[i] == '[');
                    }
                }
            }
            if cs[j] == '[' {
                open = true;
            }
        }
        j += 1;
    }
    false
}

/// A file name whose extension is `md`: it ends in `.md` after a non-empty stem.
pub open spec fn has_md_extension(name: Seq<char>) -> bool {
    name.len() >= 4 && name[name.len() - 3] == '.' && name[name.len() - 2] == 'm' && name[name.len()
        - 1] == 'd'
}

/// `k` is the position of the last `/` in `p`.
pub open spec fn is_last_slash(p: Seq<char>, k: int) -> bool {
    0 <= k < p.len() && p[k] == '/' && forall|m: int| k < m < p.len() ==> p[m] != '/'
}

/// `p` names a file inside a directory: it has a `/` and something after the last one.
pub open spec fn has_file_name(p: Seq<char>) -> bool {
    exists|k: int| is_last_slash(p, k) && k + 1 < p.len()
}

/// The directory part of `p`, whose last `/` is at `k`: the root for a file at the top.
pub open spec fn dir_part(p: Seq<char>, k: int) -> Seq<char> {
    if k == 0 {
        seq!['/']
    } else {
        p.subrange(0, k)
    }
}

/// The containing directory and the file name of a document path.
pub open spec fn split_path(p: Seq<char>) -> (Seq<char>, Seq<char>) {
    let k = choose|k: int| is_last_slash(p, k) && k + 1 < p.len();
    (dir_part(p, k), p.subrange(k + 1, p.len() as int))
}

/// Splits a document path at its last `/` into its directory and its file name;
/// `None` for a path with no `/` or one that ends in `/`.
pub fn split_doc_path(path: &str) -> (r: Option<(String, String)>)
    ensures
        r is Some <==> has_file_name(path@),
        r matches Some((d, f)) ==> (d@, f@) == split_path(path@),
{
    let cs = chars_of(path);
    let ghost p = cs@;
    let mut last: Option<usize> = None;
    let mut i: usize = 0;
    while i < cs.len()
        invariant
            cs@ == p,
            p == path@,
            i <= p.len(),
            last matches Some(k) ==> k < i && p[k as int] == '/' && forall|m: int|
                k < m < i ==> p[m] != '/',
            last is None ==> forall|m: int| 0 <= m < i ==> p[m] != '/',
        decreases p.len() - i,
    {
        if cs[i] == '/' {
            last = Some(i);
        }
        i += 1;
    }
    match last {
        Some(k) => {
            assert(is_last_slash(p, k as int));
            assert forall|k2: int| is_last_slash(p, k2) implies k2 == k by {
                if k2 < k {
                    assert(p[k as int] == '/');
                }
                if k2 > k {
                    assert(p[k2] != '/');
                }
            }
            if k + 1 < cs.len() {
                let dir = if k == 0 {
                    let mut root: Vec<char> = Vec::new();
                    root.push('/');
                    string_of(&root, 0, 1)
                } else {
                    string_of(&cs, 0, k)
                };
                let file = string_of(&cs, k + 1, cs.len());
                assert(dir@ =~= dir_part(p, k as int));
                Some((dir, file))
            } else {
                None
            }
        },
        None => None,
    }
}

/// Whether a directory entry `entry_name` beside the document `doc`, in its directory
/// `dir`, is a sibling to scan: a `.md` document other than `doc` itself.
pub fn is_sibling_candidate(doc: &str, dir: &str, entry_name: &str) -> (r: bool)
    ensures
        r == (has_md_extension(entry_name@) && join(dir@, entry_name@) != doc@),
{
    let n = entry_name.unicode_len();
    if n < 4 {
        return false;
    }
    if !(entry_name.get_char(n - 3) == '.' && entry_name.get_char(n - 2) == 'm'
        && entry_name.get_char(n - 1) == 'd') {
        return false;
    }
    let sibling = join_path(dir, entry_name);
    let own = String::from_str(doc);
    !(sibling == own)
}

/// A document found beside the one being examined: its file name and its text.
pub struct SiblingDoc {
    pub name: String,
    pub content: String,
}

/// The sources among `sibs` (see `backward_sources`), `doc` being split into `dir` and `name`.
pub open spec fn sources_among(
    doc: Seq<char>,
    dir: Seq<char>,
    name: Seq<char>,
    sibs: Seq<SiblingDoc>,
    base: Seq<char>,
) -> Seq<Seq<char>>
    decreases sibs.len(),
{
    if sibs.len() == 0 {
        Seq::empty()
    } else {
        let prev = sources_among(doc, dir, name, sibs.drop_last(), base);
        let sib = sibs.last();
        if has_md_extension(sib.name@) && join(dir, sib.name@) != doc && links_to(
            sib.content@,
            name,
        ) {
            prev.push(absolute_path(join(dir, sib.name@), base))
        } else {
            prev
        }
    }
}

/// Backward links of `doc`: in the order given, every sibling `.md` document other than
/// `doc` that links to it, as a path resolved against `base`.
pub open spec fn backward_sources(doc: Seq<char>, sibs: Seq<SiblingDoc>, base: Seq<char>) -> Seq<
    Seq<char>,
> {
    if has_file_name(doc) {
        sources_among(doc, split_path(doc).0, split_path(doc).1, sibs, base)
    } else {
        Seq::empty()
    }
}

/// The backward links of the document `doc`, given the siblings that were read from
/// its directory. A document that is not inside a directory has none.
pub fn backward_link_sources(doc: &str, siblings: &Vec<SiblingDoc>, base_dir: &str) -> (r: Vec<
    String,
>)
    ensures
        r@.len() == backward_sources(doc@, siblings@, base_dir@).len(),
        forall|k: int|
            0 <= k < r@.len() ==> r@[k]@ == #[trigger] backward_sources(
                doc@,
                siblings@,
                base_dir@,
            )[k],
        is_absolute(doc@) ==> forall|k: int| 0 <= k < r@.len() ==> #[trigger] r@[k]@ != doc@,
{
    let mut out: Vec<String> = Vec::new();
    match split_doc_path(doc) {
        None => out,
        Some((dir, name)) => {
            let ghost d = dir@;
            let ghost nm = name@;
            proof {
                if is_absolute(doc@) {
                    let k = choose|k: int| is_last_slash(doc@, k) && k + 1 < doc@.len();
                    if k > 0 {
                        assert(d[0] == doc@[0]);
                    }
                }
            }
            let mut i: usize = 0;
            while i < siblings.len()
                invariant
                    i <= siblings@.len(),
                    has_file_name(doc@),
                    dir@ == d,
                    name@ == nm,
                    (d, nm) == split_path(doc@),
                    is_absolute(doc@) ==> is_absolute(d),
                    out@.len() == sources_among(
                        doc@,
                        d,
                        nm,
                        siblings@.subrange(0, i as int),
                        base_dir@,
                    ).len(),
                    forall|k: int|
                        0 <= k < out@.len() ==> out@[k]@ == #[trigger] sources_among(
                            doc@,
                            d,
                            nm,
                            siblings@.subrange(0, i as int),
                            base_dir@,
                        )[k],
                    is_absolute(doc@) ==> forall|k: int|
                        0 <= k < out@.len() ==> #[trigger] out@[k]@ != doc@,
                decreases siblings@.len() - i,
            {
                let sib = &siblings[i];
                assert(siblings@.subrange(0, i + 1).drop_last() =~= siblings@.subrange(
                    0,
                    i as int,
                ));
                assert(siblings@.subrange(0, i + 1).last() == siblings@[i as int]);
                if is_sibling_candidate(doc, dir.as_str(), sib.name.as_str())
                    && links_to_document(sib.content.as_str(), name.as_str()) {
                    let path = join_path(dir.as_str(), sib.name.as_str());
                    let source = convert_to_absolute_path(path.as_str(), base_dir);
                    proof {
                        if is_absolute(doc@) {
                            if !is_absolute(sib.name@) {
                                assert(path@[0] == d[0]);
                            }
                        }
                    }
                    out.push(source);
                }
                i += 1;
            }
            assert(siblings@.subrange(0, i as int) =~= siblings@);
            out
        },
    }
}

/// The directory that relative link tokens of `doc` are resolved against: its own
/// directory, or `base` for a path that is not inside one.
pub open spec fn link_base(doc: Seq<char>, base: Seq<char>) -> Seq<char> {
    if has_file_name(doc) {
        split_path(doc).0
    } else {
        base
    }
}

/// Forward links of the document `doc` whose text is `content`, resolved against the
/// document's own directory.
pub fn forward_links(doc: &str, content: &str, base_dir: &str) -> (r: Vec<String>)
    ensures
        r@.len() == link_targets(content@).len(),
        forall|k: int|
            0 <= k < r@.len() ==> r@[k]@ == absolute_path(
                #[trigger] link_targets(content@)[k],
                link_base(doc@, base_dir@),
            ),
{
    match split_doc_path(doc) {
        Some((dir, _name)) => parse_links(content, dir.as_str()),
        None => parse_links(content, base_dir),
    }
}

} // verus!
