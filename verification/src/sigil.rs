//! Interned identifiers and the database that hands them out.

use std::collections::hash_map::DefaultHasher;
use std::collections::HashMap;
use std::hash::Hasher;
use std::sync::Arc;
use vstd::prelude::*;
use vstd::std_specs::hash::DefaultHasherAdditionalSpecFns;

verus! {

/// A sigil is some sort of identifier.
///
/// Sigils name spellbooks, spells and enchantments, but user code may use
/// them for any purpose. A sigil is the position of its name in the database
/// that created it, so comparing two sigils of one database is a single
/// integer comparison. Sigils of different databases must not be mixed.
#[derive(Clone, Copy, Debug, PartialEq, Eq, Structural, Hash)]
pub struct Sigil(pub u32);

/// A sigil database maps sigils to their names and vice versa.
///
/// Unknown names get a fresh sigil when they are interned. Names are never
/// removed, so sigils should not be created from untrusted input.
#[derive(Debug)]
pub struct Sigils {
    /// The names, each at the position that is its sigil.
    by_id: Vec<Arc<[u8]>>,
    /// The sigils, each filed under the digest of its name. Names with the
    /// same digest share an entry.
    by_name: HashMap<u64, Vec<Sigil>>,
}

/// The name that `sigil` stands for in a table of names, if it has one.
pub open spec fn name_of(names: Seq<Seq<u8>>, sigil: Sigil) -> Option<Seq<u8>> {
    if sigil.0 < names.len() {
        Some(names[sigil.0 as int])
    } else {
        None
    }
}

/// What interning `name` does to a table of names: the table afterwards and
/// the sigil handed out.
pub open spec fn interned(names: Seq<Seq<u8>>, name: Seq<u8>) -> (Seq<Seq<u8>>, Sigil) {
    if names.contains(name) {
        (names, Sigil(names.index_of(name) as u32))
    } else {
        (names.push(name), Sigil(names.len() as u32))
    }
}

/// A table of names is valid when no name occurs twice and every position
/// fits in a sigil.
pub open spec fn valid_names(names: Seq<Seq<u8>>) -> bool {
    &&& names.no_duplicates()
    &&& names.len() <= u32::MAX + 1
}

/// Whether `name` can be interned: it is known already, or there is a sigil
/// left for it.
pub open spec fn can_intern(names: Seq<Seq<u8>>, name: Seq<u8>) -> bool {
    names.contains(name) || names.len() <= u32::MAX
}

/// The digest of a name: what the standard hasher makes of its bytes.
spec fn digest_of(name: Seq<u8>) -> u64 {
    DefaultHasher::spec_finish(seq![name])
}

/// Whether `by_name` is an index of `names`: it files every sigil under the
/// digest of its name, and files nothing that is not a sigil.
spec fn indexes(by_name: Map<u64, Vec<Sigil>>, names: Seq<Seq<u8>>) -> bool {
    &&& forall|i: int|
        0 <= i < names.len() ==> by_name.contains_key(digest_of(#[trigger] names[i]))
            && by_name[digest_of(names[i])]@.contains(Sigil(i as u32))
    &&& forall|digest: u64, k: int|
        by_name.contains_key(digest) && 0 <= k < by_name[digest]@.len() ==> (
        #[trigger] by_name[digest]@[k]).0 < names.len()
}

impl View for Sigils {
    type V = Seq<Seq<u8>>;

    /// The names in the database, each at the position that is its sigil.
    closed spec fn view(&self) -> Seq<Seq<u8>> {
        self.by_id@.map_values(|name: Arc<[u8]>| name@)
    }
}

/// Compute the digest of a name.
fn digest(name: &Arc<[u8]>) -> (digest: u64)
    ensures
        digest == digest_of(name@),
{
    let mut hasher = DefaultHasher::new();
    hasher.write(&**name);
    hasher.finish()
}

/// Whether two byte strings hold the same bytes.
fn same_bytes(a: &Arc<[u8]>, b: &Arc<[u8]>) -> (same: bool)
    ensures
        same == (a@ == b@),
{
    if a.len() != b.len() {
        return false;
    }
    let mut i: usize = 0;
    while i < a.len()
        invariant
            a@.len() == b@.len(),
            i <= a@.len(),
            forall|k: int| 0 <= k < i ==> a@[k] == b@[k],
        decreases a@.len() - i,
    {
        if a[i] != b[i] {
            return false;
        }
        i += 1;
    }
    assert(a@ =~= b@);
    true
}

impl Sigils {
    /// The index from names to sigils agrees with the names.
    pub closed spec fn indexed(&self) -> bool {
        indexes(self.by_name@, self@)
    }

    /// The database's invariant: the names are valid, see [`valid_names`],
    /// and the index agrees with them.
    pub open spec fn wf(&self) -> bool {
        &&& valid_names(self@)
        &&& self.indexed()
    }

    /// Create an empty sigil database.
    ///
    /// The returned database is distinct from other databases, and sigils
    /// created using one database should not be queried using another.
    pub fn new() -> (sigils: Self)
        ensures
            sigils.wf(),
            sigils@ == Seq::<Seq<u8>>::empty(),
    {
        let sigils = Sigils { by_id: Vec::new(), by_name: HashMap::new() };
        assert(sigils@ =~= Seq::<Seq<u8>>::empty());
        sigils
    }

    /// The number of sigils created so far.
    pub fn len(&self) -> (len: usize)
        ensures
            len == self@.len(),
    {
        self.by_id.len()
    }

    /// Get the name of a sigil in the database, or nothing if the sigil is
    /// not one that this database created.
    pub fn name(&self, sigil: Sigil) -> (name: Option<&Arc<[u8]>>)
        ensures
            name_of(self@, sigil) == match name {
                Some(n) => Some(n@),
                None => None,
            },
    {
        let index = sigil.0 as usize;
        if index < self.by_id.len() {
            Some(&self.by_id[index])
        } else {
            None
        }
    }

    /// The sigil of `name`, if the database knows the name.
    pub fn find(&self, name: &Arc<[u8]>) -> (found: Option<Sigil>)
        requires
            self.wf(),
        ensures
            found is Some <==> self@.contains(name@),
            found matches Some(sigil) ==> sigil == interned(self@, name@).1,
    {
        let digest = digest(name);
        match self.by_name.get(&digest) {
            Some(filed) => {
                let mut k: usize = 0;
                while k < filed.len()
                    invariant
                        self.wf(),
                        self.by_name@.contains_key(digest),
                        self.by_name@[digest] == *filed,
                        k <= filed@.len(),
                        forall|j: int| 0 <= j < k ==> self@[filed@[j].0 as int] != name@,
                    decreases filed@.len() - k,
                {
                    let sigil = filed[k];
                    let at = sigil.0 as usize;
                    if same_bytes(&self.by_id[at], name) {
                        assert(self@[at as int] == name@);
                        return Some(sigil);
                    }
                    k += 1;
                }
                proof {
                    if self@.contains(name@) {
                        let i = self@.index_of(name@);
                        assert(self@[i] == name@);
                        let j = choose|j: int| 0 <= j < filed@.len() && filed@[j] == Sigil(i as u32);
                        assert(self@[filed@[j].0 as int] != name@);
                    }
                }
                None
            },
            None => {
                proof {
                    if self@.contains(name@) {
                        let i = self@.index_of(name@);
                        assert(self@[i] == name@);
                    }
                }
                None
            },
        }
    }

    /// Get a sigil by its name. If the sigil does not yet exist in the
    /// database, it is first created: it is the next in sequence, and there
    /// must be one left.
    pub fn intern(&mut self, name: &Arc<[u8]>) -> (sigil: Sigil)
        requires
            old(self).wf(),
            can_intern(old(self)@, name@),
        ensures
            final(self).wf(),
            (final(self)@, sigil) == interned(old(self)@, name@),
    {
        match self.find(name) {
            Some(sigil) => sigil,
            None => {
                let sigil = Sigil(self.by_id.len() as u32);
                let digest = digest(name);
                let ghost index = self.by_name@;
                let mut filed = match self.by_name.remove(&digest) {
                    Some(filed) => filed,
                    None => Vec::new(),
                };
                let ghost others = filed@;
                filed.push(sigil);
                self.by_name.insert(digest, filed);
                self.by_id.push(name.clone());
                proof {
                    let names = old(self)@;
                    assert(self@ =~= names.push(name@));
                    assert(self.by_name@ =~= index.insert(digest, filed));
                    assert(filed@[others.len() as int] == sigil);
                    assert forall|i: int| 0 <= i < self@.len() implies self.by_name@.contains_key(
                        digest_of(#[trigger] self@[i]),
                    ) && self.by_name@[digest_of(self@[i])]@.contains(Sigil(i as u32)) by {
                        if i < names.len() {
                            assert(self@[i] == names[i]);
                            if digest_of(names[i]) == digest {
                                let k = choose|k: int|
                                    0 <= k < others.len() && others[k] == Sigil(i as u32);
                                assert(filed@[k] == Sigil(i as u32));
                            }
                        }
                    }
                    assert forall|other: u64, k: int|
                        self.by_name@.contains_key(other) && 0 <= k < self.by_name@[other]@.len()
                        implies (#[trigger] self.by_name@[other]@[k]).0 < self@.len() by {
                        if other == digest {
                            if k < others.len() {
                                assert(index[digest]@[k].0 < names.len());
                            }
                        } else {
                            assert(index[other]@[k].0 < names.len());
                        }
                    }
                }
                sigil
            },
        }
    }
}

/// Interning keeps a table of names valid.
pub proof fn lemma_interned_valid(names: Seq<Seq<u8>>, name: Seq<u8>)
    requires
        valid_names(names),
        can_intern(names, name),
    ensures
        valid_names(interned(names, name).0),
{
}

/// Sigil identity: of two names interned one after the other, the second
/// gets the sigil of the first exactly when it is the same name.
pub proof fn lemma_intern_identity(names: Seq<Seq<u8>>, first: Seq<u8>, second: Seq<u8>)
    requires
        valid_names(names),
        can_intern(names, first),
        can_intern(interned(names, first).0, second),
    ensures
        (interned(interned(names, first).0, second).1 == interned(names, first).1) <==> (second
            == first),
{
    let (after, a) = interned(names, first);
    lemma_intern_then_name(names, first);
    lemma_interned_valid(names, first);
    lemma_intern_then_name(after, second);
    if second == first {
        assert(after.contains(first));
    } else {
        lemma_intern_keeps_names(after, second, a);
    }
}

/// Round trip: the sigil that interning a name hands out has that name.
pub proof fn lemma_intern_then_name(names: Seq<Seq<u8>>, name: Seq<u8>)
    requires
        valid_names(names),
        can_intern(names, name),
    ensures
        name_of(interned(names, name).0, interned(names, name).1) == Some(name),
{
}

/// Round trip the other way: interning the name of a sigil hands out that
/// sigil again and leaves the table as it was.
pub proof fn lemma_name_then_intern(names: Seq<Seq<u8>>, sigil: Sigil)
    requires
        valid_names(names),
        sigil.0 < names.len(),
    ensures
        interned(names, names[sigil.0 as int]) == (names, sigil),
{
    let name = names[sigil.0 as int];
    assert(names.contains(name));
}

/// Names are never removed or changed: a sigil that has a name keeps it when
/// any name is interned.
pub proof fn lemma_intern_keeps_names(names: Seq<Seq<u8>>, name: Seq<u8>, sigil: Sigil)
    requires
        name_of(names, sigil) is Some,
    ensures
        name_of(interned(names, name).0, sigil) == name_of(names, sigil),
{
}

} // verus!
