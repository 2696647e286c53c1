//! Per-scope symbol tables: dense indices for declarations, and resolution of
//! later references by name.
use hashbrown::HashMap;
use vstd::prelude::*;

verus! {

/// A position in the source text.
#[derive(Clone, Copy, Debug, PartialEq, Eq)]
pub struct Span {
    pub offset: usize,
}

/// An identifier: its text, a generation that is zero for names written in
/// the source and non-zero for names that the compiler made up, and where it
/// stands.
#[derive(Clone, Debug)]
pub struct Id {
    pub name: String,
    pub gen: u32,
    pub span: Span,
}

impl Id {
    /// What two identifiers must share to be the same name: the text and the
    /// generation, not the position.
    pub open spec fn key(&self) -> (Seq<char>, u32) {
        (self.name@, self.gen)
    }

    /// Whether the compiler made this identifier up.
    pub fn is_gensym(&self) -> (r: bool)
        ensures
            r == (self.gen != 0),
    {
        self.gen != 0
    }
}

/// A reference to an indexed item: a number already, or a name still to be
/// looked up.
#[derive(Clone, Debug)]
pub enum Index {
    Num(u32, Span),
    Id(Id),
}

/// Why a name could not be registered or resolved.
#[derive(Clone, Debug)]
pub enum Error {
    /// The name is registered already in this scope.
    DuplicateIdentifier { span: Span, desc: String },
    /// The name is bound already in this scope, found on binding it to an
    /// index chosen elsewhere.
    DuplicateIdentifierFor { span: Span, desc: String },
    /// No item of this scope has the name.
    UnknownIdentifier { span: Span, desc: String, name: String },
}

impl Error {
    /// The text of the diagnostic.
    pub fn message(&self) -> (r: String)
        ensures
            r@ == match self {
                Error::DuplicateIdentifier { desc, .. } => "duplicate "@ + desc@ + " identifier"@,
                Error::DuplicateIdentifierFor { desc, .. } => "duplicate identifier for "@ + desc@,
                Error::UnknownIdentifier { desc, name, .. } => "unknown "@ + desc@ + ": failed to find name `$"@
                    + name@ + "`"@,
            },
    {
        match self {
            Error::DuplicateIdentifier { desc, .. } => {
                let mut text: String = String::from_str("duplicate ");
                text.append(desc.as_str());
                text.append(" identifier");
                text
            },
            Error::DuplicateIdentifierFor { desc, .. } => {
                let mut text: String = String::from_str("duplicate identifier for ");
                text.append(desc.as_str());
                text
            },
            Error::UnknownIdentifier { desc, name, .. } => {
                let mut text: String = String::from_str("unknown ");
                text.append(desc.as_str());
                text.append(": failed to find name `$");
                text.append(name.as_str());
                text.append("`");
                text
            },
        }
    }
}

/// A name's text and generation, mapped to the index that it is bound to.
pub type NameMap = Map<(Seq<char>, u32), u32>;

/// The map from names to indices: a `hashbrown::HashMap`, whose contents are
/// read through `table_contents`.
#[verifier::external_body]
pub struct NameTable {
    map: HashMap<(String, u32), u32>,
}

/// What a table maps each name to.
pub uninterp spec fn table_contents(t: NameTable) -> NameMap;

/// Relies on `hashbrown::HashMap::new`: an empty map.
#[verifier::external_body]
fn table_new() -> (r: NameTable)
    ensures
        table_contents(r) == NameMap::empty(),
{
    NameTable { map: HashMap::new() }
}

/// Relies on `hashbrown::HashMap::insert`: binds the key to the value and
/// hands back the value that it was bound to before, if any.
#[verifier::external_body]
fn table_insert(t: &mut NameTable, id: &Id, index: u32) -> (r: Option<u32>)
    ensures
        table_contents(*final(t)) == table_contents(*old(t)).insert(id.key(), index),
        r == (if table_contents(*old(t)).contains_key(id.key()) {
            Some(table_contents(*old(t))[id.key()])
        } else {
            None
        }),
{
    t.map.insert((id.name.clone(), id.gen), index)
}

/// Relies on `hashbrown::HashMap::get`: the value bound to the key, if any.
#[verifier::external_body]
fn table_get(t: &NameTable, id: &Id) -> (r: Option<u32>)
    ensures
        r == (if table_contents(*t).contains_key(id.key()) {
            Some(table_contents(*t)[id.key()])
        } else {
            None
        }),
{
    t.map.get(&(id.name.clone(), id.gen)).copied()
}

/// Whether two strings hold the same characters.
fn str_eq(a: &str, b: &str) -> (r: bool)
    ensures
        r == (a@ == b@),
{
    let la: usize = a.unicode_len();
    let lb: usize = b.unicode_len();
    if la != lb {
        return false;
    }
    let mut i: usize = 0;
    while i < la
        invariant
            la == a@.len(),
            lb == b@.len(),
            la == lb,
            i <= la,
            a@.subrange(0, i as int) == b@.subrange(0, i as int),
        decreases la - i,
    {
        if a.get_char(i) != b.get_char(i) {
            return false;
        }
        assert(a@.subrange(0, i + 1) == a@.subrange(0, i as int).push(a@[i as int]));
        assert(b@.subrange(0, i + 1) == b@.subrange(0, i as int).push(b@[i as int]));
        i = i + 1;
    }
    assert(a@ == a@.subrange(0, la as int));
    assert(b@ == b@.subrange(0, lb as int));
    true
}

/// The two kinds of segment whose names may be given twice: an older form of
/// the text format wrote a different identifier in that place.
pub open spec fn duplicates_allowed(desc: Seq<char>) -> bool {
    desc == "elem"@ || desc == "data"@
}

fn is_duplicate_allowed(desc: &str) -> (r: bool)
    ensures
        r == duplicates_allowed(desc@),
{
    str_eq(desc, "elem") || str_eq(desc, "data")
}

/// One allocating call: it handed out the counter's value and moved the
/// counter on by one.
pub open spec fn allocation_step(before: Namespace, after: Namespace, index: u32) -> bool {
    &&& index == before.count()
    &&& after.count() == before.count() + 1
}

/// What one call of `register` with `name` and `desc` does: it hands out
/// the next index and binds the name to it; it fails only where the name was
/// bound already and the kind of item does not allow that.
pub open spec fn registered(
    before: Namespace,
    after: Namespace,
    name: Option<Id>,
    desc: Seq<char>,
    r: Result<u32, Error>,
) -> bool {
    &&& after.count() == before.count() + 1
    &&& match name {
        None => after.names() == before.names(),
        Some(id) => after.names() == before.names().insert(id.key(), before.count() as u32),
    }
    &&& match r {
        Ok(i) => {
            &&& allocation_step(before, after, i)
            &&& !(name is Some && before.names().contains_key(name->0.key()) && !duplicates_allowed(desc))
        },
        Err(Error::DuplicateIdentifier { span, desc: d }) => {
            &&& name is Some
            &&& before.names().contains_key(name->0.key())
            &&& !duplicates_allowed(desc)
            &&& span == name->0.span
            &&& d@ == desc
        },
        Err(_) => false,
    }
}

/// The index that a reference stands for under the bindings `names`, if any.
pub open spec fn resolved_index(names: NameMap, idx: Index) -> Option<u32> {
    match idx {
        Index::Num(n, _) => Some(n),
        Index::Id(id) => if names.contains_key(id.key()) {
            Some(names[id.key()])
        } else {
            None
        },
    }
}

/// The reference after resolution under `names`: a name that is bound
/// becomes its number, at the name's position; anything else stays.
pub open spec fn resolved_ref(names: NameMap, idx: Index) -> Index {
    match idx {
        Index::Id(id) => if names.contains_key(id.key()) {
            Index::Num(names[id.key()], id.span)
        } else {
            idx
        },
        Index::Num(..) => idx,
    }
}

/// The symbol table of one scope.
pub struct Namespace {
    names: NameTable,
    count: u32,
}

impl Namespace {
    /// The index that each registered name is bound to.
    pub closed spec fn names(&self) -> NameMap {
        table_contents(self.names)
    }

    /// The number of indices handed out so far.
    pub closed spec fn count(&self) -> nat {
        self.count as nat
    }

    /// Hands out the next index, for a name or for an unnamed item, and binds
    /// the name to it. A name that is bound already is bound anew; that is an
    /// error but for the segment kinds where an older syntax allowed it.
    pub fn register(&mut self, name: Option<Id>, desc: &str) -> (r: Result<u32, Error>)
        requires
            old(self).count() < u32::MAX,
        ensures
            registered(*old(self), *final(self), name, desc@, r),
    {
        let index: u32 = self.alloc_index();
        if let Some(id) = name {
            if let Some(_prev) = table_insert(&mut self.names, &id, index) {
                if !is_duplicate_allowed(desc) {
                    return Err(Error::DuplicateIdentifier { span: id.span, desc: desc.to_string() });
                }
            }
        }
        Ok(index)
    }

    /// Hands out the next index, with no name.
    pub fn alloc_index(&mut self) -> (r: u32)
        requires
            old(self).count() < u32::MAX,
        ensures
            allocation_step(*old(self), *final(self), r),
            final(self).names() == old(self).names(),
    {
        let index: u32 = self.count;
        self.count = self.count + 1;
        index
    }

    /// Binds a name to an index chosen elsewhere. A name that is bound already
    /// is bound anew, and that is an error.
    pub fn register_specific(&mut self, name: Id, index: u32, desc: &str) -> (r: Result<(), Error>)
        ensures
            final(self).count() == old(self).count(),
            final(self).names() == old(self).names().insert(name.key(), index),
            match r {
                Ok(()) => !old(self).names().contains_key(name.key()),
                Err(Error::DuplicateIdentifierFor { span, desc: d }) => {
                    &&& old(self).names().contains_key(name.key())
                    &&& span == name.span
                    &&& d@ == desc@
                },
                Err(_) => false,
            },
    {
        if let Some(_prev) = table_insert(&mut self.names, &name, index) {
            return Err(Error::DuplicateIdentifierFor { span: name.span, desc: desc.to_string() });
        }
        Ok(())
    }

    /// The index that a reference stands for. A number is returned as it is;
    /// a name is looked up, and on success the reference becomes the number.
    /// Names that the compiler made up are never looked up in vain.
    pub fn resolve(&self, idx: &mut Index, desc: &str) -> (r: Result<u32, Error>)
        requires
            match *old(idx) {
                Index::Id(id) => self.names().contains_key(id.key()) || id.gen == 0,
                Index::Num(..) => true,
            },
        ensures
            *final(idx) == resolved_ref(self.names(), *old(idx)),
            match resolved_index(self.names(), *old(idx)) {
                Some(n) => r == Ok::<u32, Error>(n),
                None => r matches Err(Error::UnknownIdentifier { span, desc: d, name }) && *old(idx) matches Index::Id(id)
                    && span == id.span && d@ == desc@ && name@ == id.name@,
            },
    {
        let found: Option<u32> = match idx {
            Index::Num(n, _) => {
                return Ok(*n);
            },
            Index::Id(id) => table_get(&self.names, id),
        };
        match found {
            Some(n) => {
                let span: Span = match idx {
                    Index::Id(id) => id.span,
                    Index::Num(_, s) => *s,
                };
                *idx = Index::Num(n, span);
                Ok(n)
            },
            None => match idx {
                Index::Id(id) => Err(resolve_error(id, desc)),
                Index::Num(n, _) => Ok(*n),
            },
        }
    }
}

impl Default for Namespace {
    /// An empty table whose first index is zero.
    fn default() -> (r: Self)
        ensures
            r.names() == NameMap::empty(),
            r.count() == 0,
    {
        Namespace { names: table_new(), count: 0 }
    }
}

/// The error for a name that no item of the scope has. Names that the
/// compiler made up are always resolved beforehand, so `id` is one written in
/// the source.
pub fn resolve_error(id: &Id, ns: &str) -> (r: Error)
    requires
        id.gen == 0,
    ensures
        r matches Error::UnknownIdentifier { span, desc, name } && span == id.span && desc@ == ns@
            && name@ == id.name@,
{
    Error::UnknownIdentifier { span: id.span, desc: ns.to_string(), name: id.name.clone() }
}

/// Resolving a reference a second time gives the same index and leaves the
/// reference as it is, and from then on the result does not depend on the
/// table at all.
pub proof fn lemma_resolve_idempotent(names: NameMap, other: NameMap, idx: Index)
    requires
        resolved_index(names, idx) is Some,
    ensures
        resolved_ref(other, resolved_ref(names, idx)) == resolved_ref(names, idx),
        resolved_index(other, resolved_ref(names, idx)) == resolved_index(names, idx),
{
}

/// Registering a name that is bound already fails, unless the kind of item
/// is one of the two segment kinds where it is allowed; then it succeeds and
/// the name is bound to the newer index.
pub proof fn lemma_duplicate_detection(
    s0: Namespace,
    s1: Namespace,
    s2: Namespace,
    first: Id,
    second: Id,
    desc: Seq<char>,
    r1: Result<u32, Error>,
    r2: Result<u32, Error>,
)
    requires
        first.key() == second.key(),
        registered(s0, s1, Some(first), desc, r1),
        registered(s1, s2, Some(second), desc, r2),
    ensures
        r2 is Err <==> !duplicates_allowed(desc),
        r2 matches Err(e) ==> e matches Error::DuplicateIdentifier { span, .. } && span == second.span,
        s2.names()[second.key()] == s1.count(),
        r2 is Ok ==> r2 == Ok::<u32, Error>(s1.count() as u32),
{
    assert(s1.names().contains_key(first.key()));
}

/// Indices are handed out densely: over any run of allocating calls on a
/// fresh table, the `k`-th call returns `k`, so the indices returned are
/// exactly `0..n`, each once.
pub proof fn lemma_allocation_dense(states: Seq<Namespace>, indices: Seq<u32>)
    requires
        states.len() == indices.len() + 1,
        states[0].count() == 0,
        forall|k: int| 0 <= k < indices.len() ==> allocation_step(states[k], states[k + 1], #[trigger] indices[k]),
    ensures
        forall|k: int| 0 <= k < indices.len() ==> #[trigger] indices[k] == k,
        indices.no_duplicates(),
        states.last().count() == indices.len(),
{
    lemma_allocation_prefix(states, indices, indices.len() as int);
}

/// One call in a run of calls on a namespace: `register` and `alloc_index`
/// move the counter on by one, whatever their outcome, and an index they
/// return is the counter's old value; `register_specific` leaves the counter.
pub open spec fn counter_step(before: Namespace, after: Namespace, returned: Option<u32>) -> bool {
    &&& after.count() == before.count() + 1 || after.count() == before.count()
    &&& returned matches Some(i) ==> allocation_step(before, after, i)
}

/// The number of steps among the first `k` of a run that moved the counter on.
pub open spec fn advances(states: Seq<Namespace>, k: int) -> nat
    decreases k,
{
    if k <= 0 {
        0
    } else if states[k].count() == states[k - 1].count() + 1 {
        advances(states, k - 1) + 1
    } else {
        advances(states, k - 1)
    }
}

/// Over any run of calls on a fresh namespace, `register` calls of either
/// outcome, `alloc_index` calls and `register_specific` calls in any mix, the
/// counter is the number of calls that allocated, and each index returned is
/// the number of allocating calls before it: the indices handed out are
/// `0, 1, 2, ...` in call order, each once.
pub proof fn lemma_allocation_dense_mixed(states: Seq<Namespace>, returned: Seq<Option<u32>>)
    requires
        states.len() == returned.len() + 1,
        states[0].count() == 0,
        forall|k: int| 0 <= k < returned.len() ==> counter_step(states[k], states[k + 1], #[trigger] returned[k]),
    ensures
        forall|k: int| 0 <= k < states.len() ==> #[trigger] states[k].count() == advances(states, k),
        forall|k: int| 0 <= k < returned.len() && #[trigger] returned[k] is Some ==> returned[k]->0 == advances(states, k),
        forall|j: int, k: int|
            0 <= j < k < returned.len() && #[trigger] returned[j] is Some && #[trigger] returned[k] is Some
                ==> returned[j] != returned[k],
{
    lemma_advances_prefix(states, returned, states.len() - 1);
    assert forall|j: int, k: int|
        0 <= j < k < returned.len() && #[trigger] returned[j] is Some && #[trigger] returned[k] is Some
            implies returned[j] != returned[k] by {
        assert(counter_step(states[j], states[j + 1], returned[j]));
        assert(counter_step(states[k], states[k + 1], returned[k]));
        lemma_advances_grow(states, returned, j + 1, k);
    }
}

proof fn lemma_advances_prefix(states: Seq<Namespace>, returned: Seq<Option<u32>>, k: int)
    requires
        states.len() == returned.len() + 1,
        states[0].count() == 0,
        forall|k: int| 0 <= k < returned.len() ==> counter_step(states[k], states[k + 1], #[trigger] returned[k]),
        0 <= k < states.len(),
    ensures
        forall|j: int| 0 <= j <= k ==> #[trigger] states[j].count() == advances(states, j),
    decreases k,
{
    if k > 0 {
        lemma_advances_prefix(states, returned, k - 1);
        assert(counter_step(states[k - 1], states[k], returned[k - 1]));
    }
}

proof fn lemma_advances_grow(states: Seq<Namespace>, returned: Seq<Option<u32>>, j: int, k: int)
    requires
        states.len() == returned.len() + 1,
        0 <= j <= k < states.len(),
    ensures
        advances(states, j) <= advances(states, k),
    decreases k - j,
{
    if j < k {
        lemma_advances_grow(states, returned, j, k - 1);
    }
}

proof fn lemma_allocation_prefix(states: Seq<Namespace>, indices: Seq<u32>, k: int)
    requires
        states.len() == indices.len() + 1,
        states[0].count() == 0,
        forall|k: int| 0 <= k < indices.len() ==> allocation_step(states[k], states[k + 1], #[trigger] indices[k]),
        0 <= k <= indices.len(),
    ensures
        states[k].count() == k,
        forall|j: int| 0 <= j < k ==> #[trigger] indices[j] == j,
    decreases k,
{
    if k > 0 {
        lemma_allocation_prefix(states, indices, k - 1);
        assert(allocation_step(states[k - 1], states[k], indices[k - 1]));
    }
}

} // verus!
