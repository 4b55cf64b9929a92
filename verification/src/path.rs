//! Unix paths as byte strings.

use vstd::prelude::*;

verus! {

/// `/`
pub const SLASH: u8 = 0x2f;

/// `.`
pub const DOT: u8 = 0x2e;

/// `name` inside `dir`; an absolute `name` stands for itself.
pub open spec fn joined(dir: Seq<u8>, name: Seq<u8>) -> Seq<u8> {
    if name.len() > 0 && name[0] == SLASH {
        name
    } else if dir.len() == 0 || dir.last() == SLASH {
        dir + name
    } else {
        dir + seq![SLASH] + name
    }
}

/// A path without the separators and the `.` components at its end.
pub open spec fn trimmed(path: Seq<u8>) -> Seq<u8>
    decreases path.len(),
{
    if path.len() >= 2 && (path.last() == SLASH || (path.last() == DOT && path[path.len() - 2]
        == SLASH)) {
        trimmed(path.drop_last())
    } else {
        path
    }
}

/// The length of `path` up to and including its last separator.
pub open spec fn dir_len(path: Seq<u8>) -> nat
    decreases path.len(),
{
    if path.len() == 0 || path.last() == SLASH {
        path.len()
    } else {
        dir_len(path.drop_last())
    }
}

/// The path without its last component; there is none for the root and for the
/// empty path.
pub open spec fn parent_of(path: Seq<u8>) -> Option<Seq<u8>> {
    let whole = trimmed(path);
    if whole.len() == 0 || whole == seq![SLASH] {
        None
    } else {
        Some(trimmed(whole.take(dir_len(whole) as int)))
    }
}

pub fn join(dir: &[u8], name: &[u8]) -> (path: Vec<u8>)
    ensures
        path@ == joined(dir@, name@),
{
    if name.len() > 0 && name[0] == SLASH {
        return vstd::slice::slice_to_vec(name);
    }
    let mut path: Vec<u8> = vstd::slice::slice_to_vec(dir);
    if dir.len() > 0 && dir[dir.len() - 1] != SLASH {
        path.push(SLASH);
    }
    let mut tail: Vec<u8> = vstd::slice::slice_to_vec(name);
    path.append(&mut tail);
    assert(path@ == joined(dir@, name@));
    path
}

/// The length of `path[..end]` without its trailing separators and `.` components.
fn trimmed_len(path: &[u8], end: usize) -> (n: usize)
    requires
        end <= path@.len(),
    ensures
        n <= end,
        path@.take(n as int) == trimmed(path@.take(end as int)),
{
    let mut n: usize = end;
    while n >= 2 && (path[n - 1] == SLASH || (path[n - 1] == DOT && path[n - 2] == SLASH))
        invariant
            n <= end <= path@.len(),
            trimmed(path@.take(n as int)) == trimmed(path@.take(end as int)),
        decreases n,
    {
        assert(path@.take(n as int).drop_last() == path@.take(n - 1));
        n -= 1;
    }
    n
}

pub fn parent(path: &[u8]) -> (dir: Option<Vec<u8>>)
    ensures
        match dir {
            Some(d) => parent_of(path@) == Some(d@),
            None => parent_of(path@) is None,
        },
{
    assert(path@.take(path@.len() as int) == path@);
    let whole: usize = trimmed_len(path, path.len());
    if whole == 0 || (whole == 1 && path[0] == SLASH) {
        assert(whole == 1 ==> path@.take(1) == seq![SLASH]);
        return None;
    }
    let ghost kept = path@.take(whole as int);
    proof {
        if kept == seq![SLASH] {
            assert(kept[0] == path@[0]);
        }
    }
    let mut end: usize = whole;
    while end > 0 && path[end - 1] != SLASH
        invariant
            end <= whole <= path@.len(),
            dir_len(path@.take(end as int)) == dir_len(path@.take(whole as int)),
        decreases end,
    {
        assert(path@.take(end as int).drop_last() == path@.take(end - 1));
        end -= 1;
    }
    assert(dir_len(kept) == end);
    assert(kept.take(end as int) == path@.take(end as int));
    let n: usize = trimmed_len(path, end);
    let dir = vstd::slice::slice_to_vec(vstd::slice::slice_subrange(path, 0, n));
    assert(path@.subrange(0, n as int) == path@.take(n as int));
    Some(dir)
}

/// A relative name of one component lies directly in the directory it is joined
/// to: the parent of the result is the directory, up to redundant separators.
pub proof fn law_parent_of_joined(dir: Seq<u8>, name: Seq<u8>)
    requires
        name.len() > 0,
        !name.contains(SLASH),
        name != seq![DOT],
    ensures
        parent_of(joined(dir, name)) == Some(trimmed(dir)),
{
    let path = joined(dir, name);
    let n = path.len();
    assert(name[0] != SLASH) by {
        if name[0] == SLASH {
            assert(name.contains(SLASH));
        }
    }
    assert(path.last() == name.last());
    assert(name.last() != SLASH) by {
        if name.last() == SLASH {
            assert(name.contains(SLASH));
        }
    }
    let start = n - name.len();
    assert(path.take(start) == if dir.len() == 0 || dir.last() == SLASH {
        dir
    } else {
        dir + seq![SLASH]
    });
    if name.len() == 1 {
        if name[0] == DOT {
            assert(name == seq![DOT]);
        }
    } else {
        assert(path[n - 2] == name[name.len() - 2]);
        if path[n - 2] == SLASH {
            assert(name.contains(SLASH));
        }
    }
    assert(trimmed(path) == path);
    lemma_dir_len(path, start as nat);
    if path == seq![SLASH] {
        assert(path.len() == 1);
    }
    if dir.len() > 0 && dir.last() != SLASH {
        assert((dir + seq![SLASH]).drop_last() == dir);
    }
}

/// Trimming twice is trimming once.
pub proof fn lemma_trimmed_twice(path: Seq<u8>)
    ensures
        trimmed(trimmed(path)) == trimmed(path),
    decreases path.len(),
{
    if path.len() >= 2 && (path.last() == SLASH || (path.last() == DOT && path[path.len() - 2]
        == SLASH)) {
        lemma_trimmed_twice(path.drop_last());
    }
}

/// The last separator is the one behind which there is no other.
proof fn lemma_dir_len(path: Seq<u8>, n: nat)
    requires
        n <= path.len(),
        n > 0 ==> path[n - 1] == SLASH,
        forall|i: int| n <= i < path.len() ==> #[trigger] path[i] != SLASH,
    ensures
        dir_len(path) == n,
    decreases path.len(),
{
    if path.len() > n {
        assert(path.last() != SLASH);
        lemma_dir_len(path.drop_last(), n);
    }
}

/// How paths are joined: with one separator between them, unless the directory is empty
/// or ends in one; an absolute name stands for itself.
pub proof fn law_how_paths_are_joined(dir: Seq<u8>, name: Seq<u8>)
    ensures
        name.len() > 0 && name[0] == 0x2f ==> joined(dir, name) == name,
        !(name.len() > 0 && name[0] == 0x2f) && (dir.len() == 0 || dir.last() == 0x2f) ==> joined(
            dir,
            name,
        ) == dir + name,
        !(name.len() > 0 && name[0] == 0x2f) && dir.len() > 0 && dir.last() != 0x2f ==> joined(
            dir,
            name,
        ) == dir + seq![0x2fu8] + name,
{
}

/// A separator or a `.` component at the end of a path changes nothing about its
/// parent; the root and the empty path have none.
pub proof fn law_what_ends_a_path_does_not_matter(path: Seq<u8>)
    ensures
        parent_of(Seq::empty()) is None,
        parent_of(seq![0x2fu8]) is None,
        path.len() > 0 ==> parent_of(path.push(0x2f)) == parent_of(path),
        path.len() > 0 && path.last() == 0x2f ==> parent_of(path.push(0x2e)) == parent_of(path),
{
    let slash = path.push(0x2f);
    let dot = path.push(0x2e);
    assert(slash.drop_last() == path);
    assert(dot.drop_last() == path);
    if path.len() > 0 {
        assert(dot[dot.len() - 2] == path.last());
    }
}

/// What is trimmed from the end of a path: separators and `.` components behind a
/// separator, until something else stands there or only one byte is left.
pub proof fn law_what_is_trimmed(path: Seq<u8>)
    ensures
        path.len() <= 1 ==> trimmed(path) == path,
        path.len() > 0 && path.last() != 0x2f && !(path.len() > 1 && path.last() == 0x2e
            && path[path.len() - 2] == 0x2f) ==> trimmed(path) == path,
        path.len() > 0 ==> trimmed(path.push(0x2f)) == trimmed(path),
        path.len() > 0 && path.last() == 0x2f ==> trimmed(path.push(0x2e)) == trimmed(path),
{
    assert(path.push(0x2f).drop_last() == path);
    assert(path.push(0x2e).drop_last() == path);
    if path.len() > 0 {
        assert(path.push(0x2e)[path.len() - 1] == path.last());
    }
}

} // verus!
