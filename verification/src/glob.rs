//! Which files of a directory belong to a backlog.
//!
//! The chunks of the backlog at `<dir>/<stem>.<ext>` are the files named
//! `<stem>.bkl` and `<stem>.bkl.<N>`, `N` in decimal. The directory is listed
//! elsewhere; here its entries are picked.

use vstd::prelude::*;
use vstd::slice::slice_subrange;
use vstd::slice::slice_to_vec;
use crate::error::InitError;
use crate::naming::find_last_dot;
use crate::naming::is_digit;
use crate::naming::last_dot;
use crate::naming::DOT;
use crate::naming::SLASH;
use crate::naming::ZERO;

verus! {

/// Index at which the final component of `path` starts.
pub open spec fn name_start(path: Seq<u8>) -> int
    decreases path.len(),
{
    if path.len() == 0 {
        0
    } else if path.last() == SLASH {
        path.len() as int
    } else {
        name_start(path.drop_last())
    }
}

/// The final component of `path`.
pub open spec fn file_name(path: Seq<u8>) -> Seq<u8> {
    path.subrange(name_start(path), path.len() as int)
}

/// Whether `path` ends in a file name that a stem can be taken from.
pub open spec fn has_stem(path: Seq<u8>) -> bool {
    file_name(path).len() > 0 && file_name(path) != seq![DOT, DOT]
}

/// The file name of `path` without its extension. A name that only starts
/// with its one dot has no extension.
pub open spec fn stem(path: Seq<u8>) -> Seq<u8> {
    let name = file_name(path);
    match last_dot(name) {
        Some(at) if at > 0 => name.subrange(0, at),
        _ => name,
    }
}

/// The extension of every chunk file.
pub open spec fn bkl() -> Seq<u8> {
    seq![DOT, 0x62u8, 0x6bu8, 0x6cu8]
}

/// The file name of the canonical chunk of the backlog at `path`.
pub open spec fn canonical_name(path: Seq<u8>) -> Seq<u8> {
    stem(path) + bkl()
}

/// Whether `name` is `canon`, or `canon` with a dot and decimal digits behind.
pub open spec fn names_chunk(canon: Seq<u8>, name: Seq<u8>) -> bool {
    ||| name == canon
    ||| {
        &&& name.len() > canon.len() + 1
        &&& name.subrange(0, canon.len() as int) == canon
        &&& name[canon.len() as int] == DOT
        &&& forall|i: int| canon.len() < i < name.len() ==> is_digit(#[trigger] name[i])
    }
}

/// Whether the file at `entry` is a chunk of the backlog at `path`.
pub open spec fn belongs(path: Seq<u8>, entry: Seq<u8>) -> bool {
    names_chunk(canonical_name(path), file_name(entry))
}

/// Index at which the final component of `path` starts.
pub fn find_name_start(path: &[u8]) -> (start: usize)
    ensures
        start == name_start(path@),
        start <= path@.len(),
{
    let mut i: usize = path.len();
    assert(path@.subrange(0, i as int) =~= path@);
    while i > 0 && path[i - 1] != SLASH
        invariant
            i <= path@.len(),
            name_start(path@) == name_start(path@.subrange(0, i as int)),
        decreases i,
    {
        let ghost head = path@.subrange(0, i as int);
        assert(head.last() == path@[i - 1]);
        assert(head.drop_last() =~= path@.subrange(0, i - 1));
        i -= 1;
    }
    proof {
        let head = path@.subrange(0, i as int);
        if i > 0 {
            assert(head.last() == path@[i - 1]);
        }
    }
    i
}

/// Whether `name` is `canon`, or `canon` with a dot and decimal digits behind.
pub fn is_chunk_name(canon: &[u8], name: &[u8]) -> (yes: bool)
    ensures
        yes == names_chunk(canon@, name@),
{
    let base = canon.len();
    let len = name.len();
    if len < base {
        return false;
    }
    let mut i: usize = 0;
    while i < base
        invariant
            i <= base,
            base == canon@.len(),
            len == name@.len(),
            base <= len,
            forall|j: int| 0 <= j < i ==> name@[j] == canon@[j],
        decreases base - i,
    {
        if name[i] != canon[i] {
            assert(name@.subrange(0, base as int)[i as int] != canon@[i as int]);
            return false;
        }
        i += 1;
    }
    assert(name@.subrange(0, base as int) =~= canon@);
    if len == base {
        assert(name@ =~= canon@);
        return true;
    }
    if len == base + 1 || name[base] != DOT {
        return false;
    }
    let mut k: usize = base + 1;
    while k < len
        invariant
            base < k <= len,
            base == canon@.len(),
            len == name@.len(),
            forall|j: int| base < j < k ==> is_digit(#[trigger] name@[j]),
        decreases len - k,
    {
        if !(ZERO <= name[k] && name[k] <= ZERO + 9) {
            assert(!is_digit(name@[k as int]));
            return false;
        }
        k += 1;
    }
    true
}

/// Picks, in their order, the entries of a directory that are chunks of the
/// backlog at `path`. Fails where `path` ends in no file name.
pub fn find_files(path: &[u8], entries: &Vec<Vec<u8>>) -> (res: Result<Vec<Vec<u8>>, InitError>)
    ensures
        has_stem(path@) ==> (res matches Ok(files) && files.deep_view() == entries.deep_view().filter(
            |entry: Seq<u8>| belongs(path@, entry),
        )),
        !has_stem(path@) ==> (res matches Err(InitError::NoStem { path: p }) && p@ == path@),
{
    let start = find_name_start(path);
    let len = path.len();
    let name = slice_subrange(path, start, len);
    if name.len() == 0 || (name.len() == 2 && name[0] == DOT && name[1] == DOT) {
        assert(name@.len() == 2 ==> name@ =~= seq![name@[0], name@[1]]);
        return Err(InitError::NoStem { path: slice_to_vec(path) });
    }
    let cut = match find_last_dot(name) {
        Some(at) => if at > 0 {
            at
        } else {
            name.len()
        },
        None => name.len(),
    };
    assert(name@.subrange(0, name@.len() as int) =~= name@);
    let mut canon = slice_to_vec(slice_subrange(name, 0, cut));
    canon.push(DOT);
    canon.push(0x62);
    canon.push(0x6b);
    canon.push(0x6c);
    assert(canon@ =~= canonical_name(path@));
    let mut files: Vec<Vec<u8>> = Vec::new();
    let ghost picks = |entry: Seq<u8>| belongs(path@, entry);
    let ghost all = entries.deep_view();
    let mut i: usize = 0;
    assert(all.subrange(0, 0) =~= Seq::<Seq<u8>>::empty());
    assert(files.deep_view() =~= Seq::<Seq<u8>>::empty());
    while i < entries.len()
        invariant
            i <= entries@.len(),
            all == entries.deep_view(),
            all.len() == entries@.len(),
            canon@ == canonical_name(path@),
            picks == |entry: Seq<u8>| belongs(path@, entry),
            files.deep_view() == all.subrange(0, i as int).filter(picks),
        decreases entries@.len() - i,
    {
        let entry = entries[i].as_slice();
        assert(entry@ == all[i as int]);
        let from = find_name_start(entry);
        let ghost before = files.deep_view();
        let ghost head = all.subrange(0, i + 1);
        assert(head.drop_last() =~= all.subrange(0, i as int));
        assert(head.last() == entry@);
        reveal(Seq::filter);
        if is_chunk_name(canon.as_slice(), slice_subrange(entry, from, entry.len())) {
            files.push(slice_to_vec(entry));
            assert(files.deep_view() =~= before.push(entry@));
        }
        i += 1;
    }
    assert(all.subrange(0, i as int) =~= all);
    Ok(files)
}

} // verus!
