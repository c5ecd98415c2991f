//! Paths as character sequences with `/` separators.
use vstd::prelude::*;

use crate::text::{chars_eq, chars_of, has_prefix, starts_with};

verus! {

/// `rel` appended to `base` as `PathBuf::push` does: an absolute `rel`
/// replaces `base`, and one separator stands between the two.
pub open spec fn join(base: Seq<char>, rel: Seq<char>) -> Seq<char> {
    if rel.len() > 0 && rel[0] == '/' {
        rel
    } else if base.len() == 0 {
        rel
    } else if base.last() == '/' {
        base + rel
    } else {
        base + seq!['/'] + rel
    }
}

/// Appends `rel` to `base`.
pub fn join_chars(base: &[char], rel: &[char]) -> (r: Vec<char>)
    ensures
        r@ == join(base@, rel@),
{
    let mut out: Vec<char> = Vec::new();
    if rel.len() > 0 && rel[0] == '/' {
        append(&mut out, rel);
        return out;
    }
    append(&mut out, base);
    if base.len() > 0 && base[base.len() - 1] != '/' {
        out.push('/');
    }
    append(&mut out, rel);
    out
}

/// Appends the characters of `s` to `out`.
pub fn append(out: &mut Vec<char>, s: &[char])
    ensures
        final(out)@ == old(out)@ + s@,
{
    let ghost start = out@;
    let mut i: usize = 0;
    while i < s.len()
        invariant
            i <= s@.len(),
            out@ == start + s@.subrange(0, i as int),
        decreases s@.len() - i,
    {
        out.push(s[i]);
        i = i + 1;
        assert(out@ =~= start + s@.subrange(0, i as int));
    }
    assert(s@.subrange(0, i as int) =~= s@);
}

/// The length of `p[..e]` without trailing separators, keeping a lone `/`.
pub open spec fn trimmed_len(p: Seq<char>, e: int) -> int
    decreases e,
{
    if e > 1 && p[e - 1] == '/' {
        trimmed_len(p, e - 1)
    } else {
        e
    }
}

/// The index of the last separator in `p[..e]`, or -1.
pub open spec fn last_sep(p: Seq<char>, e: int) -> int
    decreases e,
{
    if e <= 0 {
        -1
    } else if p[e - 1] == '/' {
        e - 1
    } else {
        last_sep(p, e - 1)
    }
}

/// The directory that holds `p`, as `Path::parent` gives it: `None` for
/// the root and the empty path; the empty path for a single relative
/// component; separators at the end are ignored.
pub open spec fn parent_of(p: Seq<char>) -> Option<Seq<char>> {
    let e = trimmed_len(p, p.len() as int);
    if e == 0 || (e == 1 && p[0] == '/') {
        None
    } else {
        let k = last_sep(p, e);
        if k < 0 {
            Some(Seq::empty())
        } else if k == 0 {
            Some(seq!['/'])
        } else {
            Some(p.subrange(0, trimmed_len(p, k)))
        }
    }
}

proof fn lemma_trimmed_len_bounds(p: Seq<char>, e: int)
    requires
        0 <= e <= p.len(),
    ensures
        0 <= trimmed_len(p, e) <= e,
        e >= 1 ==> trimmed_len(p, e) >= 1,
    decreases e,
{
    if e > 1 && p[e - 1] == '/' {
        lemma_trimmed_len_bounds(p, e - 1);
    }
}

proof fn lemma_last_sep_bounds(p: Seq<char>, e: int)
    requires
        0 <= e <= p.len(),
    ensures
        -1 <= last_sep(p, e) < e,
        last_sep(p, e) >= 0 ==> p[last_sep(p, e)] == '/',
    decreases e,
{
    if e > 0 && p[e - 1] != '/' {
        lemma_last_sep_bounds(p, e - 1);
    }
}

/// A parent is shorter than its child.
pub proof fn lemma_parent_shorter(p: Seq<char>)
    ensures
        parent_of(p) is Some ==> parent_of(p)->Some_0.len() < p.len(),
{
    let e = trimmed_len(p, p.len() as int);
    lemma_trimmed_len_bounds(p, p.len() as int);
    if !(e == 0 || (e == 1 && p[0] == '/')) {
        lemma_last_sep_bounds(p, e);
        let k = last_sep(p, e);
        if k > 0 {
            lemma_trimmed_len_bounds(p, k);
        }
    }
}

/// The directory that holds `p`.
pub fn parent_chars(p: &[char]) -> (r: Option<Vec<char>>)
    ensures
        match r {
            Some(v) => parent_of(p@) == Some(v@),
            None => parent_of(p@) is None,
        },
{
    let n = p.len();
    let mut e: usize = n;
    while e > 1 && p[e - 1] == '/'
        invariant
            e <= n == p@.len(),
            trimmed_len(p@, e as int) == trimmed_len(p@, n as int),
        decreases e,
    {
        e = e - 1;
    }
    if e == 0 || (e == 1 && p[0] == '/') {
        return None;
    }
    let mut k: usize = e;
    while k > 0 && p[k - 1] != '/'
        invariant
            k <= e <= n == p@.len(),
            last_sep(p@, k as int) == last_sep(p@, e as int),
        decreases k,
    {
        k = k - 1;
    }
    if k == 0 {
        return Some(Vec::new());
    }
    let k = k - 1;
    if k == 0 {
        return Some(vec!['/']);
    }
    let mut t: usize = k;
    while t > 1 && p[t - 1] == '/'
        invariant
            t <= k < n == p@.len(),
            trimmed_len(p@, t as int) == trimmed_len(p@, k as int),
        decreases t,
    {
        t = t - 1;
    }
    let v = vstd::slice::slice_to_vec(vstd::slice::slice_subrange(p, 0, t));
    assert(Seq::<char>::empty() == Seq::<char>::empty());
    Some(v)
}

/// The index of the last `.` in `name[..e]`, or -1.
pub open spec fn last_dot(name: Seq<char>, e: int) -> int
    decreases e,
{
    if e <= 0 {
        -1
    } else if name[e - 1] == '.' {
        e - 1
    } else {
        last_dot(name, e - 1)
    }
}

/// The extension of the file name `name`, as `Path::extension` gives it:
/// what follows the last `.`, where that dot is not the first character.
pub open spec fn extension_of(name: Seq<char>) -> Option<Seq<char>> {
    let k = last_dot(name, name.len() as int);
    if name == ".."@ || k <= 0 {
        None
    } else {
        Some(name.subrange(k + 1, name.len() as int))
    }
}

/// Whether a file of this name is an archive: its extension begins with
/// `db` or `xdb`.
pub open spec fn is_archive_name(name: Seq<char>) -> bool {
    match extension_of(name) {
        Some(ext) => has_prefix(ext, "db"@) || has_prefix(ext, "xdb"@),
        None => false,
    }
}

proof fn lemma_last_dot_bounds(name: Seq<char>, e: int)
    requires
        0 <= e <= name.len(),
    ensures
        -1 <= last_dot(name, e) < e,
    decreases e,
{
    if e > 0 && name[e - 1] != '.' {
        lemma_last_dot_bounds(name, e - 1);
    }
}

/// The extension of the file name `name`.
pub fn extension_chars(name: &[char]) -> (r: Option<Vec<char>>)
    ensures
        match r {
            Some(v) => extension_of(name@) == Some(v@),
            None => extension_of(name@) is None,
        },
{
    if chars_eq(name, chars_of("..").as_slice()) {
        return None;
    }
    let n = name.len();
    let mut k: usize = n;
    while k > 0 && name[k - 1] != '.'
        invariant
            k <= n == name@.len(),
            last_dot(name@, k as int) == last_dot(name@, n as int),
        decreases k,
    {
        k = k - 1;
    }
    if k <= 1 {
        return None;
    }
    proof {
        lemma_last_dot_bounds(name@, n as int);
    }
    Some(vstd::slice::slice_to_vec(vstd::slice::slice_subrange(name, k, n)))
}

/// Whether the file `name` is an archive.
pub fn archive_name(name: &[char]) -> (r: bool)
    ensures
        r == is_archive_name(name@),
{
    match extension_chars(name) {
        Some(ext) => starts_with(ext.as_slice(), chars_of("db").as_slice()) || starts_with(
            ext.as_slice(),
            chars_of("xdb").as_slice(),
        ),
        None => false,
    }
}

} // verus!
