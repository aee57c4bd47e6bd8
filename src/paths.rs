//! Paths as byte strings with `/` between components.

use vstd::prelude::*;
use vstd::string::*;
use crate::bytes::{last_index, lemma_last_index_bounds, push_all, push_range};

verus! {

/// The `/` separator.
pub const SEPARATOR: u8 = 47;

/// The `.` before an extension.
pub const DOT: u8 = 46;

/// Everything up to and including the last separator.
pub open spec fn dir_prefix(p: Seq<u8>) -> Seq<u8> {
    p.subrange(0, last_index(p, SEPARATOR) + 1)
}

/// The last component.
pub open spec fn file_name(p: Seq<u8>) -> Seq<u8> {
    p.subrange(last_index(p, SEPARATOR) + 1, p.len() as int)
}

/// The extension of the last component with its dot (`.md`), or nothing when
/// the last component has no dot after its first byte.
pub open spec fn ext_part(p: Seq<u8>) -> Seq<u8> {
    let f = file_name(p);
    let d = last_index(f, DOT);
    if d > 0 {
        f.subrange(d, f.len() as int)
    } else {
        Seq::empty()
    }
}

/// `p` with its last component replaced by `stem` followed by `p`'s extension.
pub open spec fn renamed_file(p: Seq<u8>, stem: Seq<u8>) -> Seq<u8> {
    dir_prefix(p) + stem + ext_part(p)
}

/// `p` with its last component replaced by `name`.
pub open spec fn renamed_dir(p: Seq<u8>, name: Seq<u8>) -> Seq<u8> {
    dir_prefix(p) + name
}

/// How many times `b` occurs in `s`.
pub open spec fn count_byte(s: Seq<u8>, b: u8) -> nat
    decreases s.len(),
{
    if s.len() == 0 {
        0
    } else {
        count_byte(s.drop_last(), b) + if s.last() == b {
            1nat
        } else {
            0nat
        }
    }
}

/// Number of components of a path.
pub open spec fn depth(p: Seq<u8>) -> nat {
    count_byte(p, SEPARATOR) + 1
}

/// Length of the longest common prefix of `a` and `t` from `i` on that ends
/// just after a separator (`best` if there is none beyond `i`).
pub open spec fn shared_dirs_len(a: Seq<u8>, t: Seq<u8>, i: int, best: int) -> int
    decreases a.len() - i,
{
    if i < 0 || i >= a.len() || i >= t.len() || a[i] != t[i] {
        best
    } else if a[i] == SEPARATOR {
        shared_dirs_len(a, t, i + 1, i + 1)
    } else {
        shared_dirs_len(a, t, i + 1, best)
    }
}

/// `n` times `../`.
pub open spec fn parent_steps(n: nat) -> Seq<u8>
    decreases n,
{
    if n == 0 {
        Seq::empty()
    } else {
        parent_steps((n - 1) as nat) + seq![DOT, DOT, SEPARATOR]
    }
}

/// The path of `target` relative to the directory that holds `from_file`:
/// one `../` per directory of `from_file` that `target` does not share,
/// then the rest of `target`.
pub open spec fn relative_path(from_file: Seq<u8>, target: Seq<u8>) -> Seq<u8> {
    let a = dir_prefix(from_file);
    let p = shared_dirs_len(a, target, 0, 0);
    parent_steps(count_byte(a.subrange(p, a.len() as int), SEPARATOR)) + target.subrange(
        p,
        target.len() as int,
    )
}

/// Index of the last `b` in `s`, if any.
pub fn find_last(s: &[u8], b: u8) -> (r: Option<usize>)
    ensures
        match r {
            Some(i) => i as int == last_index(s@, b) && i < s.len(),
            None => last_index(s@, b) == -1,
        },
{
    let mut i: usize = s.len();
    assert(s@.subrange(0, s@.len() as int) =~= s@);
    while i > 0
        invariant
            i <= s@.len(),
            last_index(s@, b) == last_index(s@.subrange(0, i as int), b),
        decreases i,
    {
        let ghost pre = s@.subrange(0, i as int);
        if s[i - 1] == b {
            assert(pre.last() == b);
            return Some(i - 1);
        }
        assert(pre.drop_last() =~= s@.subrange(0, i - 1));
        i = i - 1;
    }
    None
}

/// The last component of a path without its extension.
pub open spec fn stem(p: Seq<char>) -> Seq<char> {
    let f = p.subrange(last_index(p, '/') + 1, p.len() as int);
    let d = last_index(f, '.');
    if d > 0 {
        f.subrange(0, d)
    } else {
        f
    }
}

/// The extension of the last component of a path, when it has one.
pub open spec fn extension(p: Seq<char>) -> Option<Seq<char>> {
    let f = p.subrange(last_index(p, '/') + 1, p.len() as int);
    let d = last_index(f, '.');
    if d > 0 {
        Some(f.subrange(d + 1, f.len() as int))
    } else {
        None
    }
}

/// Do `a` and `b` hold the same characters?
pub fn same_text(a: &str, b: &str) -> (r: bool)
    ensures
        r == (a@ == b@),
{
    let n = a.unicode_len();
    if n != b.unicode_len() {
        return false;
    }
    let mut i: usize = 0;
    while i < n
        invariant
            n == a@.len(),
            n == b@.len(),
            i <= n,
            forall|j: int| 0 <= j < i ==> a@[j] == b@[j],
        decreases n - i,
    {
        if a.get_char(i) != b.get_char(i) {
            return false;
        }
        i = i + 1;
    }
    assert(a@ =~= b@);
    true
}

/// Character index of the last `c` in `s`, if any.
pub fn find_last_char(s: &str, c: char) -> (r: Option<usize>)
    ensures
        match r {
            Some(i) => i as int == last_index(s@, c) && i < s@.len(),
            None => last_index(s@, c) == -1,
        },
        s@.len() <= usize::MAX,
{
    let mut i: usize = s.unicode_len();
    assert(s@.subrange(0, s@.len() as int) =~= s@);
    while i > 0
        invariant
            i <= s@.len(),
            s@.len() <= usize::MAX,
            last_index(s@, c) == last_index(s@.subrange(0, i as int), c),
        decreases i,
    {
        let ghost pre = s@.subrange(0, i as int);
        if s.get_char(i - 1) == c {
            assert(pre.last() == c);
            return Some(i - 1);
        }
        assert(pre.drop_last() =~= s@.subrange(0, i - 1));
        i = i - 1;
    }
    None
}

/// The last component of `path` without its extension.
pub fn path_stem(path: &str) -> (r: &str)
    ensures
        r@ == stem(path@),
{
    proof {
        lemma_last_index_bounds(path@, '/');
    }
    let start = match find_last_char(path, '/') {
        Some(i) => i + 1,
        None => 0,
    };
    let name = path.substring_char(start, path.unicode_len());
    proof {
        lemma_last_index_bounds(name@, '.');
    }
    match find_last_char(name, '.') {
        Some(d) => {
            if d > 0 {
                name.substring_char(0, d)
            } else {
                name
            }
        },
        None => name,
    }
}

/// The extension of the last component of `path`, if it has one.
pub fn path_extension(path: &str) -> (r: Option<&str>)
    ensures
        match r {
            Some(e) => extension(path@) == Some(e@),
            None => extension(path@).is_none(),
        },
{
    proof {
        lemma_last_index_bounds(path@, '/');
    }
    let start = match find_last_char(path, '/') {
        Some(i) => i + 1,
        None => 0,
    };
    let name = path.substring_char(start, path.unicode_len());
    proof {
        lemma_last_index_bounds(name@, '.');
    }
    match find_last_char(name, '.') {
        Some(d) => {
            if d > 0 {
                Some(name.substring_char(d + 1, name.unicode_len()))
            } else {
                None
            }
        },
        None => None,
    }
}

/// Byte length of everything up to and including the last separator.
pub fn dir_prefix_len(p: &[u8]) -> (r: usize)
    ensures
        r <= p@.len(),
        r == last_index(p@, SEPARATOR) + 1,
        p@.subrange(0, r as int) == dir_prefix(p@),
{
    proof {
        lemma_last_index_bounds(p@, SEPARATOR);
    }
    match find_last(p, SEPARATOR) {
        Some(i) => i + 1,
        None => 0,
    }
}

/// Start offset of the extension (with its dot) in `p`, or `p`'s length.
fn ext_start(p: &[u8]) -> (r: usize)
    ensures
        r <= p@.len(),
        p@.subrange(r as int, p@.len() as int) == ext_part(p@),
{
    proof {
        lemma_last_index_bounds(p@, SEPARATOR);
    }
    let base = dir_prefix_len(p);
    let mut name: Vec<u8> = Vec::new();
    push_range(&mut name, p, base, p.len());
    assert(name@ == file_name(p@));
    proof {
        lemma_last_index_bounds(name@, DOT);
    }
    match find_last(name.as_slice(), DOT) {
        Some(d) => {
            if d > 0 {
                assert(p@.subrange(base + d, p@.len() as int) =~= name@.subrange(d as int, name@.len() as int));
                base + d
            } else {
                assert(p@.subrange(p@.len() as int, p@.len() as int) =~= Seq::<u8>::empty());
                p.len()
            }
        },
        None => {
            assert(p@.subrange(p@.len() as int, p@.len() as int) =~= Seq::<u8>::empty());
            p.len()
        },
    }
}

/// `path` with its last component replaced by `stem` and `path`'s extension.
pub fn renamed_file_path(path: &[u8], stem: &[u8]) -> (r: Vec<u8>)
    ensures
        r@ == renamed_file(path@, stem@),
{
    let mut r: Vec<u8> = Vec::new();
    let d = dir_prefix_len(path);
    push_range(&mut r, path, 0, d);
    push_all(&mut r, stem);
    let e = ext_start(path);
    push_range(&mut r, path, e, path.len());
    r
}

/// `path` with its last component replaced by `name`.
pub fn renamed_dir_path(path: &[u8], name: &[u8]) -> (r: Vec<u8>)
    ensures
        r@ == renamed_dir(path@, name@),
{
    let mut r: Vec<u8> = Vec::new();
    let d = dir_prefix_len(path);
    push_range(&mut r, path, 0, d);
    push_all(&mut r, name);
    r
}

/// Number of separators in `s[from..to]`.
fn count_separators(s: &[u8], from: usize, to: usize) -> (r: usize)
    requires
        from <= to <= s@.len(),
    ensures
        r == count_byte(s@.subrange(from as int, to as int), SEPARATOR),
        r <= to - from,
{
    let mut n: usize = 0;
    let mut i: usize = from;
    assert(s@.subrange(from as int, from as int) =~= Seq::<u8>::empty());
    while i < to
        invariant
            from <= i <= to <= s@.len(),
            n == count_byte(s@.subrange(from as int, i as int), SEPARATOR),
            n <= i - from,
        decreases to - i,
    {
        assert(s@.subrange(from as int, i + 1).drop_last() =~= s@.subrange(from as int, i as int));
        if s[i] == SEPARATOR {
            n = n + 1;
        }
        i = i + 1;
    }
    n
}

/// Number of separators in `path`, one less than its number of components.
pub fn separator_count(path: &[u8]) -> (r: usize)
    ensures
        r == count_byte(path@, SEPARATOR),
        r + 1 == depth(path@),
{
    assert(path@.subrange(0, path@.len() as int) =~= path@);
    count_separators(path, 0, path.len())
}

/// The path of `target` relative to the directory that holds `from_file`.
pub fn relative_path_to(from_file: &[u8], target: &[u8]) -> (r: Vec<u8>)
    ensures
        r@ == relative_path(from_file@, target@),
{
    let a_len = dir_prefix_len(from_file);
    let ghost a = dir_prefix(from_file@);
    let mut i: usize = 0;
    let mut best: usize = 0;
    while i < a_len && i < target.len() && from_file[i] == target[i]
        invariant
            a_len == a.len(),
            a_len <= from_file@.len(),
            a == from_file@.subrange(0, a_len as int),
            i <= a_len,
            i <= target@.len(),
            best <= i,
            shared_dirs_len(a, target@, i as int, best as int) == shared_dirs_len(a, target@, 0, 0),
        decreases a_len - i,
    {
        assert(a[i as int] == from_file@[i as int]);
        if from_file[i] == SEPARATOR {
            best = i + 1;
        }
        i = i + 1;
    }
    assert(i < a_len && i < target@.len() ==> a[i as int] == from_file@[i as int]);
    let ups = count_separators(from_file, best, a_len);
    assert(a.subrange(best as int, a.len() as int) =~= from_file@.subrange(best as int, a_len as int));
    let mut r: Vec<u8> = Vec::new();
    let mut k: usize = 0;
    while k < ups
        invariant
            k <= ups,
            r@ == parent_steps(k as nat),
        decreases ups - k,
    {
        r.push(DOT);
        r.push(DOT);
        r.push(SEPARATOR);
        assert(r@ =~= parent_steps((k + 1) as nat));
        k = k + 1;
    }
    push_range(&mut r, target, best, target.len());
    r
}

} // verus!
