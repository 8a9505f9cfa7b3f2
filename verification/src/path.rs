//! Paths: their components, and the lookup of a name in a directory.

use vstd::prelude::*;
use crate::entry::{Entry, EntryModel};

verus! {

/// The byte that separates the components of a path.
pub const SEPARATOR: u8 = 0x2F;

/// The lower-case form of an ASCII letter; any other byte is itself.
pub open spec fn spec_lower(b: u8) -> u8 {
    if 0x41 <= b <= 0x5A {
        (b + 0x20) as u8
    } else {
        b
    }
}

/// Whether two names are the same but for the case of ASCII letters.
pub open spec fn same_name(a: Seq<u8>, b: Seq<u8>) -> bool {
    a.len() == b.len() && forall|i: int| 0 <= i < a.len() ==> spec_lower(a[i]) == spec_lower(b[i])
}

/// The first of `entries` whose name is `name`, case apart.
pub open spec fn lookup(entries: Seq<EntryModel>, name: Seq<u8>) -> Option<EntryModel>
    decreases entries.len(),
{
    if entries.len() == 0 {
        None
    } else if same_name(entries[0].name(), name) {
        Some(entries[0])
    } else {
        lookup(entries.skip(1), name)
    }
}

/// Whether a piece of a path names an entry: it is not empty, and is
/// neither `.` nor `..`.
pub open spec fn is_normal(piece: Seq<u8>) -> bool {
    piece.len() > 0 && piece != seq![0x2Eu8] && piece != seq![0x2Eu8, 0x2Eu8]
}

/// The index of the first separator in `path` from index `from` on, or
/// the length of `path` where there is none.
pub open spec fn piece_end(path: Seq<u8>, from: int) -> int
    decreases path.len() - from,
{
    if from >= path.len() {
        path.len() as int
    } else if path[from] == SEPARATOR {
        from
    } else {
        piece_end(path, from + 1)
    }
}

/// The components of `path` from index `from` on: the pieces between
/// separators that name an entry. Empty pieces, `.` and `..` are passed
/// over.
pub open spec fn components_from(path: Seq<u8>, from: int) -> Seq<Seq<u8>>
    decreases path.len() - from,
    when 0 <= from
{
    if from >= path.len() {
        Seq::empty()
    } else {
        proof {
            lemma_piece_end(path, from);
        }
        let end = piece_end(path, from);
        let piece = path.subrange(from, end);
        let rest = if end < path.len() {
            components_from(path, end + 1)
        } else {
            Seq::empty()
        };
        if is_normal(piece) {
            seq![piece] + rest
        } else {
            rest
        }
    }
}

/// A piece ends at or behind its start, and inside the path.
pub proof fn lemma_piece_end(path: Seq<u8>, from: int)
    requires
        0 <= from <= path.len(),
    ensures
        from <= piece_end(path, from) <= path.len(),
        forall|k: int| from <= k < piece_end(path, from) ==> path[k] != SEPARATOR,
        piece_end(path, from) < path.len() ==> path[piece_end(path, from)] == SEPARATOR,
    decreases path.len() - from,
{
    if from < path.len() && path[from] != SEPARATOR {
        lemma_piece_end(path, from + 1);
    }
}

/// The components of `path`.
pub open spec fn components(path: Seq<u8>) -> Seq<Seq<u8>> {
    components_from(path, 0)
}

/// The views of a sequence of byte vectors.
pub open spec fn views(pieces: Seq<Vec<u8>>) -> Seq<Seq<u8>> {
    Seq::new(pieces.len(), |i: int| pieces[i]@)
}

/// The lower-case form of an ASCII letter; any other byte is itself.
pub fn lower(b: u8) -> (l: u8)
    ensures
        l == spec_lower(b),
{
    if 0x41 <= b && b <= 0x5A {
        b + 0x20
    } else {
        b
    }
}

/// Whether two names are the same but for the case of ASCII letters.
pub fn names_match(a: &[u8], b: &[u8]) -> (same: bool)
    ensures
        same == same_name(a@, b@),
{
    if a.len() != b.len() {
        return false;
    }
    let mut i: usize = 0;
    while i < a.len()
        invariant
            i <= a@.len() == b@.len(),
            forall|j: int| 0 <= j < i ==> spec_lower(a@[j]) == spec_lower(b@[j]),
        decreases a@.len() - i,
    {
        if lower(a[i]) != lower(b[i]) {
            return false;
        }
        i += 1;
    }
    true
}

/// The name of an entry.
pub fn name_of(entry: &Entry) -> (name: &Vec<u8>)
    ensures
        name@ == entry@.name(),
{
    match entry {
        Entry::File(file) => &file.name,
        Entry::Dir(dir) => &dir.name,
    }
}

/// The index of the first of `entries` whose name is `name`, case apart.
pub fn find_index(entries: &Vec<Entry>, name: &[u8]) -> (found: Option<usize>)
    ensures
        match found {
            Some(i) => i < entries@.len() && lookup(crate::entry::models(entries@), name@) == Some(
                entries@[i as int]@,
            ),
            None => lookup(crate::entry::models(entries@), name@) is None,
        },
{
    let ghost all = crate::entry::models(entries@);
    let mut i: usize = 0;
    proof {
        assert(all.skip(0) =~= all);
    }
    while i < entries.len()
        invariant
            i <= entries@.len(),
            all == crate::entry::models(entries@),
            lookup(all, name@) == lookup(all.skip(i as int), name@),
        decreases entries@.len() - i,
    {
        proof {
            let rest = all.skip(i as int);
            assert(rest[0] == entries@[i as int]@);
            assert(rest.skip(1) =~= all.skip(i + 1));
        }
        if names_match(name_of(&entries[i]).as_slice(), name) {
            return Some(i);
        }
        i += 1;
    }
    None
}

/// Whether a piece of a path names an entry.
pub fn check_normal(piece: &[u8]) -> (normal: bool)
    ensures
        normal == is_normal(piece@),
{
    if piece.len() == 0 {
        return false;
    }
    if piece.len() == 1 && piece[0] == 0x2E {
        assert(piece@ =~= seq![0x2Eu8]);
        return false;
    }
    if piece.len() == 2 && piece[0] == 0x2E && piece[1] == 0x2E {
        assert(piece@ =~= seq![0x2Eu8, 0x2Eu8]);
        return false;
    }
    proof {
        if piece@ == seq![0x2Eu8] {
            assert(piece@.len() == 1 && piece@[0] == 0x2E);
        }
        if piece@ == seq![0x2Eu8, 0x2Eu8] {
            assert(piece@.len() == 2 && piece@[0] == 0x2E && piece@[1] == 0x2E);
        }
    }
    true
}

/// Splits a path into its components.
pub fn split_path(path: &[u8]) -> (pieces: Vec<Vec<u8>>)
    ensures
        views(pieces@) == components(path@),
{
    let mut pieces: Vec<Vec<u8>> = Vec::new();
    let total: usize = path.len();
    let mut from: usize = 0;
    proof {
        assert(views(pieces@) =~= Seq::<Seq<u8>>::empty());
        assert(Seq::<Seq<u8>>::empty() + components_from(path@, 0) =~= components(path@));
    }
    while from < total
        invariant
            total == path@.len(),
            from <= total,
            components(path@) == views(pieces@) + components_from(path@, from as int),
        decreases total - from,
    {
        let mut end: usize = from;
        while end < total && path[end] != SEPARATOR
            invariant
                from <= end <= total == path@.len(),
                piece_end(path@, from as int) == piece_end(path@, end as int),
            decreases total - end,
        {
            end += 1;
        }
        let piece: &[u8] = vstd::slice::slice_subrange(path, from, end);
        if check_normal(piece) {
            let ghost before = pieces@;
            let mut owned: Vec<u8> = Vec::new();
            crate::device::append(&mut owned, piece);
            pieces.push(owned);
            proof {
                assert(Seq::<u8>::empty() + piece@ =~= piece@);
                assert(views(pieces@) =~= views(before).push(piece@));
                let rest = if end < total {
                    components_from(path@, end + 1)
                } else {
                    Seq::<Seq<u8>>::empty()
                };
                assert(views(before) + (seq![piece@] + rest) =~= views(pieces@) + rest);
            }
        }
        if end < total {
            from = end + 1;
        } else {
            from = total;
        }
    }
    proof {
        assert(views(pieces@) + Seq::<Seq<u8>>::empty() =~= views(pieces@));
    }
    pieces
}

} // verus!
