//! Character-level helpers for paths and configuration text.
use vstd::prelude::*;

verus! {

broadcast use vstd::string::group_string_axioms;

/// The characters of `s`.
pub fn chars_of(s: &str) -> (r: Vec<char>)
    ensures
        r@ == s@,
{
    let mut v: Vec<char> = Vec::new();
    for c in it: s.chars()
        invariant
            v@ == it.history(),
            it.seq() == s@,
    {
        v.push(c);
    }
    v
}

/// Relies on `String::push`: appends one character.
pub assume_specification[ String::push ](s: &mut String, ch: char)
    ensures
        final(s)@ == old(s)@.push(ch),
;

/// The string of the characters `chars`.
pub fn string_of(chars: &[char]) -> (r: String)
    ensures
        r@ == chars@,
{
    let mut s = String::new();
    let mut i: usize = 0;
    while i < chars.len()
        invariant
            i <= chars@.len(),
            s@ == chars@.subrange(0, i as int),
        decreases chars@.len() - i,
    {
        s.push(chars[i]);
        i = i + 1;
    }
    assert(chars@.subrange(0, i as int) =~= chars@);
    s
}

/// Whether `a` and `b` hold the same characters.
pub fn chars_eq(a: &[char], b: &[char]) -> (r: bool)
    ensures
        r == (a@ == b@),
{
    if a.len() != b.len() {
        return false;
    }
    let mut i: usize = 0;
    while i < a.len()
        invariant
            a@.len() == b@.len(),
            i <= a@.len(),
            forall|j: int| 0 <= j < i ==> a@[j] == b@[j],
        decreases a@.len() - i,
    {
        if a[i] != b[i] {
            return false;
        }
        i = i + 1;
    }
    assert(a@ =~= b@);
    true
}

/// Whether `s` begins with `p`.
pub open spec fn has_prefix(s: Seq<char>, p: Seq<char>) -> bool {
    p.len() <= s.len() && s.subrange(0, p.len() as int) == p
}

/// Whether `s` begins with `p`.
pub fn starts_with(s: &[char], p: &[char]) -> (r: bool)
    ensures
        r == has_prefix(s@, p@),
{
    if p.len() > s.len() {
        return false;
    }
    let mut i: usize = 0;
    while i < p.len()
        invariant
            p@.len() <= s@.len(),
            i <= p@.len(),
            forall|j: int| 0 <= j < i ==> s@[j] == p@[j],
        decreases p@.len() - i,
    {
        if s[i] != p[i] {
            return false;
        }
        i = i + 1;
    }
    assert(s@.subrange(0, p@.len() as int) =~= p@);
    true
}

/// The pieces of `s[start..]` between occurrences of `sep`, where the
/// current piece began at `start` and the scan has reached `i`.
pub open spec fn split_from(s: Seq<char>, sep: char, start: int, i: int) -> Seq<Seq<char>>
    decreases s.len() - i,
{
    if i >= s.len() {
        seq![s.subrange(start, s.len() as int)]
    } else if s[i] == sep {
        seq![s.subrange(start, i)] + split_from(s, sep, i + 1, i + 1)
    } else {
        split_from(s, sep, start, i + 1)
    }
}

proof fn lemma_split_from_nonempty(s: Seq<char>, sep: char, start: int, i: int)
    ensures
        split_from(s, sep, start, i).len() >= 1,
    decreases s.len() - i,
{
    if i < s.len() {
        lemma_split_from_nonempty(s, sep, if s[i] == sep { i + 1 } else { start }, i + 1);
    }
}

/// The pieces of `s` between occurrences of `sep`; at least one.
pub open spec fn split(s: Seq<char>, sep: char) -> Seq<Seq<char>> {
    split_from(s, sep, 0, 0)
}

/// Splits `s` at every `sep`.
pub fn split_chars(s: &[char], sep: char) -> (r: Vec<Vec<char>>)
    ensures
        r@.len() == split(s@, sep).len(),
        r@.len() >= 1,
        forall|k: int| 0 <= k < r@.len() ==> #[trigger] r@[k]@ == split(s@, sep)[k],
{
    let ghost target = split(s@, sep);
    let ghost mut done: Seq<Seq<char>> = Seq::empty();
    let mut pieces: Vec<Vec<char>> = Vec::new();
    let mut start: usize = 0;
    let mut i: usize = 0;
    while i < s.len()
        invariant
            start <= i <= s@.len(),
            target == split(s@, sep),
            done + split_from(s@, sep, start as int, i as int) == target,
            done.len() == pieces@.len(),
            forall|k: int| 0 <= k < done.len() ==> #[trigger] pieces@[k]@ == done[k],
        decreases s@.len() - i,
    {
        if s[i] == sep {
            let piece = vstd::slice::slice_to_vec(vstd::slice::slice_subrange(s, start, i));
            proof {
                let rest = split_from(s@, sep, (i + 1) as int, (i + 1) as int);
                assert(done + (seq![s@.subrange(start as int, i as int)] + rest) == done.push(
                    s@.subrange(start as int, i as int),
                ) + rest);
                done = done.push(s@.subrange(start as int, i as int));
            }
            pieces.push(piece);
            start = i + 1;
        }
        i = i + 1;
    }
    let last = vstd::slice::slice_to_vec(vstd::slice::slice_subrange(s, start, s.len()));
    proof {
        done = done.push(s@.subrange(start as int, s@.len() as int));
    }
    pieces.push(last);
    assert(done =~= target);
    proof {
        lemma_split_from_nonempty(s@, sep, 0, 0);
    }
    pieces
}

/// The characters that `char::is_whitespace` accepts (Unicode White_Space).
pub open spec fn is_space(c: char) -> bool {
    let u = c as u32;
    (9 <= u <= 13) || u == 32 || u == 0x85 || u == 0xA0 || u == 0x1680 || (0x2000 <= u <= 0x200A)
        || u == 0x2028 || u == 0x2029 || u == 0x202F || u == 0x205F || u == 0x3000
}

/// Whether `c` is white space.
pub fn space(c: char) -> (r: bool)
    ensures
        r == is_space(c),
{
    let u = c as u32;
    (9 <= u && u <= 13) || u == 32 || u == 0x85 || u == 0xA0 || u == 0x1680 || (0x2000 <= u && u
        <= 0x200A) || u == 0x2028 || u == 0x2029 || u == 0x202F || u == 0x205F || u == 0x3000
}

/// The index of the first character of `s[from..to]` that is not white
/// space, or `to`.
pub open spec fn skip_space(s: Seq<char>, from: int, to: int) -> int
    decreases to - from,
{
    if from < to && is_space(s[from]) {
        skip_space(s, from + 1, to)
    } else {
        from
    }
}

/// The end of `s[from..to]` once trailing white space is dropped.
pub open spec fn drop_space(s: Seq<char>, from: int, to: int) -> int
    decreases to - from,
{
    if from < to && is_space(s[to - 1]) {
        drop_space(s, from, to - 1)
    } else {
        to
    }
}

/// `s` without leading and trailing white space (`str::trim`).
pub open spec fn trim(s: Seq<char>) -> Seq<char> {
    let b = skip_space(s, 0, s.len() as int);
    s.subrange(b, drop_space(s, b, s.len() as int))
}

/// Removes leading and trailing white space.
pub fn trim_chars(s: &[char]) -> (r: Vec<char>)
    ensures
        r@ == trim(s@),
{
    let n = s.len();
    let mut b: usize = 0;
    while b < n && space(s[b])
        invariant
            b <= n == s@.len(),
            skip_space(s@, b as int, n as int) == skip_space(s@, 0, n as int),
        decreases n - b,
    {
        b = b + 1;
    }
    let mut e: usize = n;
    while b < e && space(s[e - 1])
        invariant
            b <= e <= n == s@.len(),
            drop_space(s@, b as int, e as int) == drop_space(s@, b as int, n as int),
        decreases e - b,
    {
        e = e - 1;
    }
    vstd::slice::slice_to_vec(vstd::slice::slice_subrange(s, b, e))
}

/// Whether a configuration value reads as true: `on`, `yes`, `true` or
/// `1`, case-sensitively.
pub open spec fn truthy(s: Seq<char>) -> bool {
    s == "on"@ || s == "yes"@ || s == "true"@ || s == "1"@
}

/// Whether `s` reads as true.
pub fn is_bool_true(s: &[char]) -> (r: bool)
    ensures
        r == truthy(s@),
{
    chars_eq(s, chars_of("on").as_slice()) || chars_eq(s, chars_of("yes").as_slice()) || chars_eq(
        s,
        chars_of("true").as_slice(),
    ) || chars_eq(s, chars_of("1").as_slice())
}

/// Reading configuration values as flags.
pub trait StrExt: View<V = Seq<char>> {
    /// Whether the text reads as true: `on`, `yes`, `true` or `1`.
    fn is_bool_true(&self) -> (r: bool)
        ensures
            r == truthy(self@),
    ;
}

impl StrExt for str {
    fn is_bool_true(&self) -> (r: bool) {
        is_bool_true(chars_of(self).as_slice())
    }
}

} // verus!
