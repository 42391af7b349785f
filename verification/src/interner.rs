//! Identifier interning: a bijective, append-only table mapping spellings to
//! stable small integer handles. The first occurrence of a spelling allocates
//! a new handle; later occurrences of the same spelling reuse it. Handles are
//! dense indices into the table, so the table also resolves a handle back to
//! its spelling.

use vstd::prelude::*;

verus! {

/// First index of `name` in `names` at or after `from`, or `-1` if `name`
/// does not occur there.
pub open spec fn find_name_from(names: Seq<Seq<char>>, name: Seq<char>, from: int) -> int
    decreases names.len() - from,
{
    if from < 0 || from >= names.len() {
        -1
    } else if names[from] == name {
        from
    } else {
        find_name_from(names, name, from + 1)
    }
}

/// First index of `name` in `names`, or `-1` if absent.
pub open spec fn find_name(names: Seq<Seq<char>>, name: Seq<char>) -> int {
    find_name_from(names, name, 0)
}

/// The handle that interning `name` into `names` yields: the first index
/// holding `name`, else the next free index.
pub open spec fn intern_handle(names: Seq<Seq<char>>, name: Seq<char>) -> int {
    if find_name(names, name) >= 0 {
        find_name(names, name)
    } else {
        names.len() as int
    }
}

/// The table after interning `name` into `names`: unchanged if `name` is
/// already present, else extended by it.
pub open spec fn intern_names(names: Seq<Seq<char>>, name: Seq<char>) -> Seq<Seq<char>> {
    if find_name(names, name) >= 0 {
        names
    } else {
        names.push(name)
    }
}

/// No spelling occurs twice in the table.
pub open spec fn unique_names(names: Seq<Seq<char>>) -> bool {
    forall|i: int, j: int| 0 <= i < j < names.len() ==> names[i] != names[j]
}

proof fn lemma_find_name_absent(names: Seq<Seq<char>>, name: Seq<char>, from: int)
    requires
        0 <= from,
        find_name_from(names, name, from) < 0,
    ensures
        forall|j: int| from <= j < names.len() ==> names[j] != name,
    decreases names.len() - from,
{
    if from < names.len() {
        lemma_find_name_absent(names, name, from + 1);
    }
}

/// The table stays bijective: interning never stores a spelling twice, so
/// distinct handles always name distinct spellings and each spelling has
/// exactly one handle.
pub proof fn lemma_intern_keeps_names_unique(names: Seq<Seq<char>>, name: Seq<char>)
    requires
        unique_names(names),
    ensures
        unique_names(intern_names(names, name)),
{
    if find_name(names, name) < 0 {
        lemma_find_name_absent(names, name, 0);
        let names2 = names.push(name);
        assert forall|i: int, j: int| 0 <= i < j < names2.len() implies names2[i] != names2[j] by {
            if j < names.len() {
                assert(names2[i] == names[i] && names2[j] == names[j]);
            } else {
                assert(names2[j] == name);
                assert(names2[i] == names[i]);
            }
        }
    }
}

/// The append-only spelling table. Spellings are stored once each, at the
/// index that is their handle.
pub struct Interner {
    names: Vec<Vec<char>>,
}

impl Interner {
    /// The table's contents: the spelling of each allocated handle, in
    /// handle order.
    pub closed spec fn names_seq(self) -> Seq<Seq<char>> {
        self.names@.map_values(|v: Vec<char>| v@)
    }

    /// An empty table with no handles allocated.
    pub fn new() -> (r: Interner)
        ensures
            r.names_seq() == Seq::<Seq<char>>::empty(),
    {
        let r = Interner { names: Vec::new() };
        proof {
            assert(r.names_seq() =~= Seq::<Seq<char>>::empty());
        }
        r
    }

    /// How many handles have been allocated.
    pub fn len(&self) -> (r: usize)
        ensures
            r == self.names_seq().len(),
    {
        self.names.len()
    }

    /// The spelling behind a handle.
    pub fn spelling(&self, handle: usize) -> (r: &Vec<char>)
        requires
            handle < self.names_seq().len(),
        ensures
            r@ == self.names_seq()[handle as int],
    {
        &self.names[handle]
    }

    /// Interns a spelling: returns the handle of its first earlier
    /// occurrence, or allocates the next handle for it.
    pub fn insert(&mut self, name: &Vec<char>) -> (handle: usize)
        ensures
            handle == intern_handle(old(self).names_seq(), name@),
            final(self).names_seq() == intern_names(old(self).names_seq(), name@),
            handle < final(self).names_seq().len(),
            final(self).names_seq()[handle as int] == name@,
    {
        let ghost names0 = self.names_seq();
        let n = self.names.len();
        let mut i: usize = 0;
        while i < n
            invariant
                n == names0.len(),
                0 <= i <= n,
                self.names_seq() == names0,
                find_name(names0, name@) == find_name_from(names0, name@, i as int),
            decreases n - i,
        {
            if chars_equal(&self.names[i], name) {
                proof {
                    assert(find_name_from(names0, name@, i as int) == i);
                    assert(intern_names(names0, name@) =~= names0);
                }
                return i;
            }
            proof {
                assert(find_name_from(names0, name@, i as int) == find_name_from(
                    names0,
                    name@,
                    i + 1,
                ));
            }
            i += 1;
        }
        proof {
            assert(find_name(names0, name@) == -1);
        }
        let mut copy: Vec<char> = Vec::new();
        let mut j: usize = 0;
        while j < name.len()
            invariant
                0 <= j <= name.len(),
                copy@ == name@.subrange(0, j as int),
            decreases name.len() - j,
        {
            copy.push(name[j]);
            proof {
                assert(copy@ =~= name@.subrange(0, j as int + 1));
            }
            j += 1;
        }
        proof {
            assert(copy@ =~= name@);
        }
        self.names.push(copy);
        proof {
            assert(self.names_seq() =~= names0.push(name@));
        }
        n
    }
}

/// Element-wise equality of two character vectors.
pub fn chars_equal(a: &Vec<char>, b: &Vec<char>) -> (r: bool)
    ensures
        r == (a@ == b@),
{
    if a.len() != b.len() {
        proof {
            assert(a@.len() != b@.len());
        }
        return false;
    }
    let mut i: usize = 0;
    while i < a.len()
        invariant
            0 <= i <= a.len(),
            a@.len() == b@.len(),
            forall|k: int| 0 <= k < i ==> a@[k] == b@[k],
        decreases a.len() - i,
    {
        if a[i] != b[i] {
            return false;
        }
        i += 1;
    }
    proof {
        assert(a@ =~= b@);
    }
    true
}

} // verus!
