//! Paths of files within a torrent.

use crate::error::Error;
use crate::lex::compare_bytes;
use crate::lex::agree_before;
use crate::lex::path_lt;
use crate::lex::path_lt_at;
use crate::lex::path_rank;
use crate::lex::lemma_path_lt_asymmetric;
use crate::lex::lemma_path_lt_irreflexive;
use crate::lex::Rank;
use vstd::prelude::*;

verus! {

/// The path of a file below the root of a torrent: its components, outermost
/// first.
#[derive(Debug, PartialEq, Eq)]
pub struct FilePath {
    pub components: Vec<Vec<u8>>,
}

/// `name` can be a component of a path: it is not empty, is neither `.` nor
/// `..`, and holds no slash, backslash or NUL byte.
pub open spec fn valid_component(name: Seq<u8>) -> bool {
    &&& name.len() > 0
    &&& name != seq![46u8]
    &&& name != seq![46u8, 46u8]
    &&& forall|i: int| 0 <= i < name.len() ==> name[i] != 47 && name[i] != 92 && name[i] != 0
}

/// Every component of `path` is valid.
pub open spec fn valid_components(path: Seq<Seq<u8>>) -> bool {
    forall|i: int| 0 <= i < path.len() ==> valid_component(#[trigger] path[i])
}

/// Whether `name` can be a component of a path.
pub fn is_valid_component(name: &[u8]) -> (ok: bool)
    ensures
        ok == valid_component(name@),
{
    if name.len() == 0 {
        return false;
    }
    if name.len() == 1 && name[0] == 46 {
        assert(name@ =~= seq![46u8]);
        return false;
    }
    if name.len() == 2 && name[0] == 46 && name[1] == 46 {
        assert(name@ =~= seq![46u8, 46u8]);
        return false;
    }
    assert(name@ != seq![46u8]) by {
        if name@ == seq![46u8] {
            assert(seq![46u8].len() == 1);
            assert(seq![46u8][0] == 46);
        }
    }
    assert(name@ != seq![46u8, 46u8]) by {
        if name@ == seq![46u8, 46u8] {
            assert(seq![46u8, 46u8].len() == 2);
            assert(seq![46u8, 46u8][0] == 46);
            assert(seq![46u8, 46u8][1] == 46);
        }
    }
    let mut i: usize = 0;
    while i < name.len()
        invariant
            i <= name.len(),
            forall|j: int| 0 <= j < i ==> name@[j] != 47 && name@[j] != 92 && name@[j] != 0,
        decreases name.len() - i,
    {
        if name[i] == 47 || name[i] == 92 || name[i] == 0 {
            return false;
        }
        i += 1;
    }
    true
}

/// The views of the items of `items`, in order.
pub open spec fn views<T: View>(items: Seq<T>) -> Seq<T::V> {
    Seq::new(items.len(), |i: int| items[i]@)
}

/// The views of a sequence with one more item are the views of the
/// sequence with the view of that item.
pub proof fn lemma_views_push<T: View>(items: Seq<T>, item: T)
    ensures
        views(items.push(item)) == views(items).push(item@),
{
    assert(views(items.push(item)) =~= views(items).push(item@));
}

impl View for FilePath {
    type V = Seq<Seq<u8>>;

    open spec fn view(&self) -> Seq<Seq<u8>> {
        views(self.components@)
    }
}

impl FilePath {
    /// The path is not empty and each of its components is valid.
    pub open spec fn wf(&self) -> bool {
        self@.len() > 0 && valid_components(self@)
    }

    /// The path without components, which stands for the root itself.
    pub fn empty() -> (path: FilePath)
        ensures
            path@ == Seq::<Seq<u8>>::empty(),
    {
        let path = FilePath { components: Vec::new() };
        assert(path@ =~= Seq::<Seq<u8>>::empty());
        path
    }

    /// The path with the given components, if there is at least one and all
    /// are valid.
    pub fn from_components(components: Vec<Vec<u8>>) -> (r: Result<FilePath, Error>)
        ensures
            r is Ok <==> components@.len() > 0 && valid_components(views(components@)),
            r matches Ok(path) ==> path@ == views(components@) && path.wf(),
            r matches Err(e) ==> e == Error::PathComponent,
    {
        if components.len() == 0 {
            return Err(Error::PathComponent);
        }
        let mut i: usize = 0;
        while i < components.len()
            invariant
                i <= components.len(),
                forall|j: int| 0 <= j < i ==> valid_component(#[trigger] views(components@)[j]),
            decreases components.len() - i,
        {
            if !is_valid_component(components[i].as_slice()) {
                assert(views(components@)[i as int] == components[i as int]@);
                return Err(Error::PathComponent);
            }
            assert(views(components@)[i as int] == components[i as int]@);
            i += 1;
        }
        Ok(FilePath { components })
    }

    /// The number of components.
    pub fn len(&self) -> (n: usize)
        ensures
            n == self@.len(),
    {
        self.components.len()
    }

    /// The component at position `i`.
    pub fn component(&self, i: usize) -> (c: &Vec<u8>)
        requires
            i < self@.len(),
        ensures
            c@ == self@[i as int],
    {
        &self.components[i]
    }

    /// A copy of this path.
    pub fn duplicate(&self) -> (path: FilePath)
        ensures
            path@ == self@,
    {
        let mut components: Vec<Vec<u8>> = Vec::new();
        let mut i: usize = 0;
        while i < self.components.len()
            invariant
                i <= self.components.len(),
                views(components@) == self@.take(i as int),
            decreases self.components.len() - i,
        {
            let c = copy_bytes(self.components[i].as_slice());
            proof {
                lemma_views_push(components@, c);
            }
            components.push(c);
            assert(views(components@) =~= self@.take(i + 1));
            i += 1;
        }
        assert(self@.take(self.components.len() as int) =~= self@);
        FilePath { components }
    }

    /// How this path stands to `other`, component by component, each
    /// component in byte order.
    pub fn compare(&self, other: &FilePath) -> (r: Rank)
        ensures
            r == path_rank(self@, other@),
            r == Rank::Greater ==> path_lt(other@, self@),
    {
        let mut i: usize = 0;
        while i < self.components.len() && i < other.components.len()
            invariant
                agree_before(self@, other@, i as int),
            decreases self.components.len() - i,
        {
            let rank = compare_bytes(self.components[i].as_slice(), other.components[i].as_slice());
            match rank {
                Rank::Less => {
                    assert(path_lt_at(self@, other@, i as int));
                    return Rank::Less;
                },
                Rank::Greater => {
                    assert(path_lt_at(other@, self@, i as int)) by {
                        assert(agree_before(other@, self@, i as int));
                    }
                    proof {
                        lemma_path_lt_asymmetric(other@, self@);
                    }
                    return Rank::Greater;
                },
                Rank::Equal => {},
            }
            i += 1;
        }
        if i < other.components.len() {
            assert(path_lt_at(self@, other@, i as int));
            Rank::Less
        } else if i < self.components.len() {
            assert(path_lt_at(other@, self@, i as int)) by {
                assert(agree_before(other@, self@, i as int));
            }
            proof {
                lemma_path_lt_asymmetric(other@, self@);
            }
            Rank::Greater
        } else {
            assert(self@ =~= other@);
            proof {
                lemma_path_lt_irreflexive(self@);
            }
            Rank::Equal
        }
    }
}

/// A copy of `bytes`.
pub fn copy_bytes(bytes: &[u8]) -> (copy: Vec<u8>)
    ensures
        copy@ == bytes@,
{
    let mut copy: Vec<u8> = Vec::new();
    let mut i: usize = 0;
    while i < bytes.len()
        invariant
            i <= bytes.len(),
            copy@ == bytes@.take(i as int),
        decreases bytes.len() - i,
    {
        copy.push(bytes[i]);
        assert(copy@ =~= bytes@.take(i + 1));
        i += 1;
    }
    assert(bytes@.take(bytes.len() as int) =~= bytes@);
    copy
}

} // verus!
