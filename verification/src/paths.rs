//! Slash-separated paths: last component, stem and ancestors.
//!
//! Repeated slashes, a slash at the end and `.` components other than a
//! leading one do not count.

use vstd::prelude::*;
use vstd::string::*;

use crate::chars;

verus! {

/// A path without slashes and `.` components at its end.
pub open spec fn trimmed_path(p: Seq<char>) -> Seq<char>
    decreases p.len(),
{
    if p.len() > 1 && (p.last() == '/' || (p.last() == '.' && p[p.len() - 2] == '/')) {
        trimmed_path(p.drop_last())
    } else {
        p
    }
}

/// Where the last component of a path starts: behind its last slash.
pub open spec fn last_start(p: Seq<char>) -> int
    decreases p.len(),
{
    if p.len() == 0 || p.last() == '/' {
        p.len() as int
    } else {
        last_start(p.drop_last())
    }
}

/// The name of the file or directory that a path leads to. The empty path, the
/// root and paths that end in `.` or `..` have none.
pub open spec fn file_name_of(p: Seq<char>) -> Option<Seq<char>> {
    let t = trimmed_path(p);
    let name = t.skip(last_start(t));
    if name.len() == 0 || name == seq!['.'] || name == seq!['.', '.'] {
        None
    } else {
        Some(name)
    }
}

/// A name without its extension: what stands before the last dot, unless that
/// dot is the first character or there is none.
pub open spec fn stem_of_name(name: Seq<char>) -> Seq<char> {
    if chars::last_index(name, '.') > 0 {
        name.take(chars::last_index(name, '.'))
    } else {
        name
    }
}

/// The stem of the file that a path leads to; a path without file name stands
/// for itself.
pub open spec fn stem_of(p: Seq<char>) -> Seq<char> {
    match file_name_of(p) {
        Some(name) => stem_of_name(name),
        None => p,
    }
}

/// The path of the directory that holds what a path leads to. The empty path
/// and the root have none.
pub open spec fn parent_of(p: Seq<char>) -> Option<Seq<char>> {
    let t = trimmed_path(p);
    if t.len() == 0 || t == seq!['/'] {
        None
    } else {
        Some(trimmed_path(t.take(last_start(t))))
    }
}

/// The path `n` levels up.
pub open spec fn ancestor_of(p: Seq<char>, n: nat) -> Option<Seq<char>>
    decreases n,
{
    if n == 0 {
        Some(p)
    } else {
        match ancestor_of(p, (n - 1) as nat) {
            Some(q) => parent_of(q),
            None => None,
        }
    }
}

fn trim_path(p: &[char]) -> (t: &[char])
    ensures
        t@ == trimmed_path(p@),
{
    let mut n: usize = p.len();
    assert(p@.take(n as int) =~= p@);
    while n > 1 && (p[n - 1] == '/' || (p[n - 1] == '.' && p[n - 2] == '/'))
        invariant
            n <= p@.len(),
            trimmed_path(p@) == trimmed_path(p@.take(n as int)),
        decreases n,
    {
        assert(p@.take(n as int).drop_last() =~= p@.take(n - 1));
        n = n - 1;
    }
    let t: &[char] = chars::part(p, 0, n);
    assert(t@ =~= p@.take(n as int));
    t
}

fn find_last_start(p: &[char]) -> (k: usize)
    ensures
        k == last_start(p@),
        k <= p@.len(),
{
    let mut n: usize = p.len();
    assert(p@.take(n as int) =~= p@);
    while n > 0 && p[n - 1] != '/'
        invariant
            n <= p@.len(),
            last_start(p@) == last_start(p@.take(n as int)),
        decreases n,
    {
        assert(p@.take(n as int).drop_last() =~= p@.take(n - 1));
        n = n - 1;
    }
    n
}

/// The stem of the file that a path leads to; a path without file name stands
/// for itself.
pub fn file_stem(p: &[char]) -> (stem: &[char])
    ensures
        stem@ == stem_of(p@),
{
    let t: &[char] = trim_path(p);
    let k: usize = find_last_start(t);
    let n: usize = t.len();
    let name: &[char] = chars::part(t, k, n);
    assert(name@ =~= t@.skip(k as int));
    let len: usize = n - k;
    let is_dot: bool = len == 1 && name[0] == '.';
    let is_dots: bool = len == 2 && name[0] == '.' && name[1] == '.';
    proof {
        assert(is_dot ==> name@ =~= seq!['.']);
        assert(name@ == seq!['.'] ==> name@.len() == 1 && name@[0] == '.');
        assert(is_dots ==> name@ =~= seq!['.', '.']);
        assert(name@ == seq!['.', '.'] ==> name@.len() == 2 && name@[0] == '.' && name@[1] == '.');
    }
    if len == 0 || is_dot || is_dots {
        return p;
    }
    match chars::find_last(name, '.') {
        Some(i) => {
            if i > 0 {
                let stem: &[char] = chars::part(name, 0, i);
                assert(stem@ =~= name@.take(i as int));
                stem
            } else {
                name
            }
        },
        None => name,
    }
}

/// The path of the directory that holds what a path leads to.
pub fn parent(p: &[char]) -> (r: Option<&[char]>)
    ensures
        match r {
            Some(q) => parent_of(p@) == Some(q@),
            None => parent_of(p@) is None,
        },
{
    let t: &[char] = trim_path(p);
    let n: usize = t.len();
    let is_root: bool = n == 1 && t[0] == '/';
    assert(is_root ==> t@ =~= seq!['/']);
    assert(t@ == seq!['/'] ==> t@.len() == 1 && t@[0] == '/');
    if n == 0 || is_root {
        return None;
    }
    let k: usize = find_last_start(t);
    let up: &[char] = chars::part(t, 0, k);
    assert(up@ =~= t@.take(k as int));
    Some(trim_path(up))
}

/// The path `n` levels up.
pub fn ancestor(p: &[char], n: usize) -> (r: Option<&[char]>)
    ensures
        match r {
            Some(q) => ancestor_of(p@, n as nat) == Some(q@),
            None => ancestor_of(p@, n as nat) is None,
        },
{
    let mut at: &[char] = p;
    let mut i: usize = 0;
    while i < n
        invariant
            i <= n,
            ancestor_of(p@, i as nat) == Some(at@),
        decreases n - i,
    {
        match parent(at) {
            Some(q) => {
                at = q;
            },
            None => {
                proof {
                    lemma_no_ancestor(p@, (i + 1) as nat, n as nat);
                }
                return None;
            },
        }
        i = i + 1;
    }
    Some(at)
}

proof fn lemma_no_ancestor(p: Seq<char>, i: nat, n: nat)
    requires
        i <= n,
        ancestor_of(p, i) is None,
    ensures
        ancestor_of(p, n) is None,
    decreases n,
{
    if i < n {
        lemma_no_ancestor(p, i, (n - 1) as nat);
    }
}

/// A path with one more component. A component that starts with a slash is a
/// path of its own, and stands for itself.
pub open spec fn joined_path(base: Seq<char>, name: Seq<char>) -> Seq<char> {
    if name.len() > 0 && name[0] == '/' {
        name
    } else if base.len() == 0 || base.last() == '/' {
        base + name
    } else {
        base + "/"@ + name
    }
}

/// Add a component to a path.
pub fn join_path(base: &str, name: &str) -> (r: String)
    ensures
        r@ == joined_path(base@, name@),
{
    if name.unicode_len() > 0 && name.get_char(0) == '/' {
        return String::from_str(name);
    }
    let mut r: String = String::from_str(base);
    let n: usize = base.unicode_len();
    if n > 0 && base.get_char(n - 1) != '/' {
        r.append("/");
    }
    r.append(name);
    r
}

} // verus!
