//! Paths as byte strings with `/` between their components.

use vstd::prelude::*;

verus! {

/// The byte `/`.
pub const SEPARATOR: u8 = 0x2f;

/// The byte `.`.
pub const DOT: u8 = 0x2e;

/// The index of the last `c` in `s`, or -1 where there is none.
pub open spec fn last_index_of(s: Seq<u8>, c: u8) -> int
    decreases s.len(),
{
    if s.len() == 0 {
        -1
    } else if s.last() == c {
        s.len() - 1
    } else {
        last_index_of(s.drop_last(), c)
    }
}

/// Where the last component of a path begins.
pub open spec fn name_start(p: Seq<u8>) -> int {
    last_index_of(p, SEPARATOR) + 1
}

/// The last component of a path.
pub open spec fn file_name(p: Seq<u8>) -> Seq<u8> {
    p.skip(name_start(p))
}

/// The path names a file: its last component is not empty, and is neither `.` nor
/// `..`.
pub open spec fn has_file_name(p: Seq<u8>) -> bool {
    let name = file_name(p);
    name.len() > 0 && name != seq![DOT] && name != seq![DOT, DOT]
}

/// Where the extension of a file name is cut off: at its last dot, unless that is
/// its first byte; at its end where it has no such dot.
pub open spec fn stem_len(name: Seq<u8>) -> int {
    if last_index_of(name, DOT) <= 0 {
        name.len() as int
    } else {
        last_index_of(name, DOT)
    }
}

/// The extension of a path: what follows the last dot of its file name, where
/// that dot is not the first byte of the name.
pub open spec fn extension(p: Seq<u8>) -> Option<Seq<u8>> {
    let name = file_name(p);
    if has_file_name(p) && last_index_of(name, DOT) > 0 {
        Some(name.skip(last_index_of(name, DOT) + 1))
    } else {
        None
    }
}

/// The path with its extension replaced by `ext`, or taken away where `ext` is
/// empty. A path that names no file stays as it is.
pub open spec fn with_extension(p: Seq<u8>, ext: Seq<u8>) -> Seq<u8> {
    if !has_file_name(p) {
        p
    } else {
        let kept = p.take(name_start(p) + stem_len(file_name(p)));
        if ext.len() == 0 {
            kept
        } else {
            kept + seq![DOT] + ext
        }
    }
}

/// The path `base` with the component `name` after it.
pub open spec fn join(base: Seq<u8>, name: Seq<u8>) -> Seq<u8> {
    if base.len() == 0 {
        name
    } else if base.last() == SEPARATOR {
        base + name
    } else {
        base + seq![SEPARATOR] + name
    }
}

/// The last index is in range, and nothing after it is `c`.
pub proof fn lemma_last_index_of(s: Seq<u8>, c: u8)
    ensures
        -1 <= last_index_of(s, c) < s.len(),
        last_index_of(s, c) >= 0 ==> s[last_index_of(s, c)] == c,
        forall|j: int| last_index_of(s, c) < j < s.len() ==> s[j] != c,
    decreases s.len(),
{
    if s.len() > 0 && s.last() != c {
        lemma_last_index_of(s.drop_last(), c);
        assert forall|j: int| last_index_of(s, c) < j < s.len() implies s[j] != c by {
            if j < s.len() - 1 {
                assert(s.drop_last()[j] == s[j]);
            }
        }
    }
}

/// Finds the last `c` in `s[from..]`; the result is the index after it, or `from`
/// where there is none.
fn after_last(s: &[u8], from: usize, c: u8) -> (r: usize)
    requires
        from <= s.len(),
    ensures
        r as int == from + last_index_of(s@.skip(from as int), c) + 1,
        from <= r <= s.len(),
{
    let ghost tail = s@.skip(from as int);
    let mut i: usize = s.len();
    assert(tail.take(tail.len() as int) =~= tail);
    while i > from && s[i - 1] != c
        invariant
            from <= i <= s.len(),
            tail == s@.skip(from as int),
            last_index_of(tail, c) == last_index_of(tail.take(i - from), c),
        decreases i,
    {
        assert(tail.take(i - from).drop_last() =~= tail.take(i - from - 1));
        i = i - 1;
    }
    proof {
        lemma_last_index_of(tail, c);
        if i > from {
            assert(tail.take(i - from).last() == c);
        } else {
            assert(tail.take(0).len() == 0);
        }
    }
    i
}

/// Where the last component of `p` begins.
pub fn find_name_start(p: &[u8]) -> (r: usize)
    ensures
        r as int == name_start(p@),
        r <= p.len(),
{
    assert(p@.skip(0) =~= p@);
    after_last(p, 0, SEPARATOR)
}

/// Whether `p` names a file.
pub fn names_file(p: &[u8]) -> (r: bool)
    ensures
        r == has_file_name(p@),
{
    let start: usize = find_name_start(p);
    let n: usize = p.len() - start;
    let ghost name = file_name(p@);
    if n == 0 {
        return false;
    }
    if n == 1 && p[start] == DOT {
        assert(name =~= seq![DOT]);
        return false;
    }
    if n == 2 && p[start] == DOT && p[start + 1] == DOT {
        assert(name =~= seq![DOT, DOT]);
        return false;
    }
    proof {
        assert(name[0] == p@[start as int]);
        if n >= 2 {
            assert(name[1] == p@[start + 1]);
        }
    }
    true
}

/// Where the extension of `p` begins, if `p` has one.
pub fn find_extension(p: &[u8]) -> (r: Option<usize>)
    ensures
        match r {
            None => extension(p@) is None,
            Some(at) => at <= p.len() && extension(p@) == Some(p@.skip(at as int)),
        },
{
    if !names_file(p) {
        return None;
    }
    let start: usize = find_name_start(p);
    let after: usize = after_last(p, start, DOT);
    if after <= start + 1 {
        None
    } else {
        assert(file_name(p@).skip(after - start) =~= p@.skip(after as int));
        Some(after)
    }
}

/// Whether the extension of `p` is `ext`.
pub fn has_extension(p: &[u8], ext: &[u8]) -> (r: bool)
    ensures
        r == (extension(p@) == Some(ext@)),
{
    match find_extension(p) {
        None => false,
        Some(at) => {
            let n: usize = p.len() - at;
            if n != ext.len() {
                return false;
            }
            let ghost found = p@.skip(at as int);
            let mut i: usize = 0;
            while i < n
                invariant
                    i <= n,
                    n == ext.len(),
                    at + n == p.len(),
                    found == p@.skip(at as int),
                    extension(p@) == Some(found),
                    forall|k: int| 0 <= k < i ==> found[k] == ext@[k],
                decreases n - i,
            {
                if p[at + i] != ext[i] {
                    assert(found[i as int] != ext@[i as int]);
                    return false;
                }
                i = i + 1;
            }
            assert(found =~= ext@);
            true
        },
    }
}

/// Replaces the extension of `p` by `ext`, or takes it away where `ext` is empty.
pub fn set_extension(p: &mut Vec<u8>, ext: &[u8])
    ensures
        final(p)@ == with_extension(old(p)@, ext@),
{
    if !names_file(p.as_slice()) {
        return ;
    }
    let start: usize = find_name_start(p.as_slice());
    let after: usize = after_last(p.as_slice(), start, DOT);
    let keep: usize = if after <= start + 1 {
        p.len()
    } else {
        after - 1
    };
    p.truncate(keep);
    assert(p@ =~= old(p)@.take(keep as int));
    if ext.len() > 0 {
        p.push(DOT);
        append_bytes(p, ext);
    }
}

/// Appends `more` to `p`.
pub fn append_bytes(p: &mut Vec<u8>, more: &[u8])
    ensures
        final(p)@ == old(p)@ + more@,
{
    let mut i: usize = 0;
    assert(p@ =~= old(p)@ + more@.take(0));
    while i < more.len()
        invariant
            i <= more.len(),
            p@ == old(p)@ + more@.take(i as int),
        decreases more.len() - i,
    {
        p.push(more[i]);
        assert(p@ =~= old(p)@ + more@.take(i + 1));
        i = i + 1;
    }
    assert(more@.take(more.len() as int) =~= more@);
}

/// Appends the component `name` to the path `p`.
pub fn push_component(p: &mut Vec<u8>, name: &[u8])
    ensures
        final(p)@ == join(old(p)@, name@),
{
    if p.len() > 0 && p[p.len() - 1] != SEPARATOR {
        p.push(SEPARATOR);
    }
    append_bytes(p, name);
    assert(p@ =~= join(old(p)@, name@));
}

} // verus!
