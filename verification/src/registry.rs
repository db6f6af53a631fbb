//! The server registry: the single source of truth for provisioned-workload
//! identities. It owns the record collection, allocates ids, rejects
//! duplicates, and answers lookups; ids are unique for the registry's
//! lifetime and never mutated.

use crate::errors::ServiceError;
use vstd::prelude::*;

verus! {

/// A provisioned workload's durable identity.
pub struct Server {
    pub id: u64,
    pub name: String,
    pub version: Option<String>,
    pub mods: Vec<String>,
}

/// The mathematical content of a `Server` record.
pub ghost struct ServerModel {
    pub id: u64,
    pub name: Seq<char>,
    pub version: Option<Seq<char>>,
    pub mods: Seq<Seq<char>>,
}

impl View for Server {
    type V = ServerModel;

    open spec fn view(&self) -> ServerModel {
        ServerModel {
            id: self.id,
            name: self.name@,
            version: self.version.deep_view(),
            mods: self.mods.deep_view(),
        }
    }
}

impl DeepView for Server {
    type V = ServerModel;

    open spec fn deep_view(&self) -> ServerModel {
        self.view()
    }
}

/// A creation payload. It carries no id: the registry assigns one.
pub struct NewServer {
    pub name: String,
    pub version: Option<String>,
    pub mods: Vec<String>,
}

/// The mathematical content of a `NewServer` payload.
pub ghost struct NewServerModel {
    pub name: Seq<char>,
    pub version: Option<Seq<char>>,
    pub mods: Seq<Seq<char>>,
}

impl View for NewServer {
    type V = NewServerModel;

    open spec fn view(&self) -> NewServerModel {
        NewServerModel {
            name: self.name@,
            version: self.version.deep_view(),
            mods: self.mods.deep_view(),
        }
    }
}

/// The record a payload becomes once the registry assigns it `id`.
pub open spec fn record_of(id: u64, n: NewServerModel) -> ServerModel {
    ServerModel { id: id, name: n.name, version: n.version, mods: n.mods }
}

/// Whether some record carries `id`.
pub open spec fn has_id(m: Seq<ServerModel>, id: u64) -> bool {
    exists|i: int| 0 <= i < m.len() && m[i].id == id
}

/// The registry invariant: ids are pairwise distinct.
pub open spec fn wf(m: Seq<ServerModel>) -> bool {
    forall|i: int, j: int| 0 <= i < j < m.len() ==> m[i].id != m[j].id
}

/// Point lookup scanning from position `i`: the first record whose id
/// matches.
pub open spec fn by_id_from(m: Seq<ServerModel>, id: u64, i: int) -> Option<ServerModel>
    decreases m.len() - i,
{
    if i < 0 || i >= m.len() {
        None
    } else if m[i].id == id {
        Some(m[i])
    } else {
        by_id_from(m, id, i + 1)
    }
}

/// Point lookup: the first record whose id matches, if any.
pub open spec fn spec_by_id(m: Seq<ServerModel>, id: u64) -> Option<ServerModel> {
    by_id_from(m, id, 0)
}

/// Caller-assigned insertion: rejected when the id is taken, appended
/// otherwise.
pub open spec fn spec_insert_with_id(m: Seq<ServerModel>, id: u64, n: NewServerModel) -> Result<
    Seq<ServerModel>,
    ServiceError,
> {
    if has_id(m, id) {
        Err(ServiceError::DuplicateIdentity(id))
    } else {
        Ok(m.push(record_of(id, n)))
    }
}

/// Whether `id` is the smallest id not in use.
pub open spec fn is_assigned_id(m: Seq<ServerModel>, id: u64) -> bool {
    &&& !has_id(m, id)
    &&& forall|k: u64| k < id ==> has_id(m, k)
}

/// The id registry-assigned insertion picks: the smallest one not in use.
pub open spec fn assigned_id(m: Seq<ServerModel>) -> u64 {
    choose|id: u64| is_assigned_id(m, id)
}

/// Registry-assigned insertion: append under the smallest free id.
pub open spec fn spec_insert(m: Seq<ServerModel>, n: NewServerModel) -> Seq<ServerModel> {
    m.push(record_of(assigned_id(m), n))
}

/// The number of records carrying `id`.
pub open spec fn count_id(m: Seq<ServerModel>, id: u64) -> nat
    decreases m.len(),
{
    if m.len() == 0 {
        0
    } else {
        count_id(m.drop_last(), id) + (if m.last().id == id {
            1nat
        } else {
            0nat
        })
    }
}

/// If every id below `c` and `c` itself are in use, the registry holds
/// more than `c` records: distinct ids need distinct records.
pub proof fn lemma_ids_below(m: Seq<ServerModel>, c: u64)
    requires
        wf(m),
        forall|k: u64| k <= c ==> has_id(m, k),
    ensures
        c + 1 <= m.len(),
    decreases c,
{
    let i = choose|i: int| 0 <= i < m.len() && m[i].id == c;
    assert(has_id(m, c));
    let m2 = m.remove(i);
    assert forall|a: int, b: int| 0 <= a < b < m2.len() implies m2[a].id != m2[b].id by {
        let a0 = if a < i {
            a
        } else {
            a + 1
        };
        let b0 = if b < i {
            b
        } else {
            b + 1
        };
        assert(m2[a] == m[a0]);
        assert(m2[b] == m[b0]);
    }
    if c > 0 {
        assert forall|k: u64| k <= (c - 1) as u64 implies has_id(m2, k) by {
            assert(has_id(m, k));
            let j = choose|j: int| 0 <= j < m.len() && m[j].id == k;
            if j < i {
                assert(m2[j] == m[j]);
            } else {
                assert(j != i);
                assert(m2[j - 1] == m[j]);
            }
        }
        lemma_ids_below(m2, (c - 1) as u64);
    }
}

/// There is exactly one smallest free id.
pub proof fn lemma_assigned_id_unique(m: Seq<ServerModel>, a: u64, b: u64)
    requires
        is_assigned_id(m, a),
        is_assigned_id(m, b),
    ensures
        a == b,
{
    if a < b {
        assert(has_id(m, a));
    }
    if b < a {
        assert(has_id(m, b));
    }
}

/// A smallest free id exists whenever one more id can be represented.
pub proof fn lemma_assigned_id_exists(m: Seq<ServerModel>)
    requires
        wf(m),
        m.len() < u64::MAX,
    ensures
        is_assigned_id(m, assigned_id(m)),
{
    let id = lemma_find_free(m, 0);
    assert(is_assigned_id(m, id));
    let picked = choose|id: u64| is_assigned_id(m, id);
    assert(is_assigned_id(m, picked));
}

/// Walks candidate ids upward until a free one is found.
proof fn lemma_find_free(m: Seq<ServerModel>, c: u64) -> (id: u64)
    requires
        wf(m),
        m.len() < u64::MAX,
        forall|k: u64| k < c ==> has_id(m, k),
        c <= m.len(),
    ensures
        is_assigned_id(m, id),
    decreases m.len() - c,
{
    if has_id(m, c) {
        lemma_ids_below(m, c);
        lemma_find_free(m, (c + 1) as u64)
    } else {
        c
    }
}

/// No record carries an id that is absent.
pub proof fn lemma_count_id_absent(m: Seq<ServerModel>, id: u64)
    requires
        !has_id(m, id),
    ensures
        count_id(m, id) == 0,
    decreases m.len(),
{
    if m.len() > 0 {
        assert forall|i: int| 0 <= i < m.drop_last().len() implies m.drop_last()[i].id != id by {
            assert(m[i] == m.drop_last()[i]);
        }
        lemma_count_id_absent(m.drop_last(), id);
        assert(m.last().id != id);
    }
}

/// In a well-formed registry every record is found by its own id.
pub proof fn lemma_by_id_finds(m: Seq<ServerModel>, i: int)
    requires
        wf(m),
        0 <= i < m.len(),
    ensures
        spec_by_id(m, m[i].id) == Some(m[i]),
{
    lemma_by_id_finds_from(m, i, 0);
}

/// Scanning from `p` at or before `i` finds exactly record `i`.
proof fn lemma_by_id_finds_from(m: Seq<ServerModel>, i: int, p: int)
    requires
        wf(m),
        0 <= p <= i < m.len(),
    ensures
        by_id_from(m, m[i].id, p) == Some(m[i]),
    decreases i - p,
{
    if p < i {
        assert(m[p].id != m[i].id);
        lemma_by_id_finds_from(m, i, p + 1);
    }
}

/// The registry. It exclusively owns the record collection; nothing else
/// mutates it.
pub struct Registry {
    records: Vec<Server>,
}

impl View for Registry {
    type V = Seq<ServerModel>;

    closed spec fn view(&self) -> Seq<ServerModel> {
        self.records.deep_view()
    }
}

impl Registry {
    /// An empty registry.
    pub fn new() -> (r: Registry)
        ensures
            r@ == Seq::<ServerModel>::empty(),
            wf(r@),
    {
        let r = Registry { records: Vec::new() };
        proof {
            assert(r@ =~= Seq::<ServerModel>::empty());
        }
        r
    }

    /// Builds a registry directly from a record collection; callers must
    /// have checked that ids are distinct.
    pub(crate) fn from_records(records: Vec<Server>) -> (r: Registry)
        requires
            wf(records.deep_view()),
        ensures
            r@ == records.deep_view(),
            wf(r@),
    {
        Registry { records }
    }

    /// Every record, in insertion order.
    pub fn all(&self) -> (r: &Vec<Server>)
        ensures
            r.deep_view() == self@,
    {
        &self.records
    }

    /// Whether a record with `id` exists.
    pub fn contains_id(&self, id: u64) -> (b: bool)
        ensures
            b == has_id(self@, id),
    {
        let mut i: usize = 0;
        while i < self.records.len()
            invariant
                i <= self@.len(),
                self@.len() == self.records@.len(),
                forall|k: int| 0 <= k < i ==> self@[k].id != id,
            decreases self@.len() - i,
        {
            proof {
                assert(self@[i as int] == self.records@[i as int]@);
            }
            if self.records[i].id == id {
                return true;
            }
            i = i + 1;
        }
        false
    }

    /// Point lookup: the first record whose id matches, if any.
    pub fn by_id(&self, id: u64) -> (r: Option<&Server>)
        ensures
            match r {
                Some(s) => spec_by_id(self@, id) == Some(s@),
                None => spec_by_id(self@, id) is None,
            },
    {
        let mut i: usize = 0;
        while i < self.records.len()
            invariant
                i <= self@.len(),
                self@.len() == self.records@.len(),
                spec_by_id(self@, id) == by_id_from(self@, id, i as int),
            decreases self@.len() - i,
        {
            proof {
                assert(self@[i as int] == self.records@[i as int]@);
            }
            if self.records[i].id == id {
                return Some(&self.records[i]);
            }
            i = i + 1;
        }
        None
    }

    /// Caller-assigned insertion: rejects the id if it is already in use,
    /// leaving the store unchanged; otherwise appends the new record.
    pub fn insert_with_id(&mut self, id: u64, new: NewServer) -> (r: Result<(), ServiceError>)
        requires
            wf(old(self)@),
        ensures
            wf(final(self)@),
            (match spec_insert_with_id(old(self)@, id, new@) {
                Ok(m2) => r == Ok::<(), ServiceError>(()) && final(self)@ == m2,
                Err(e) => r == Err::<(), ServiceError>(e) && final(self)@ == old(self)@,
            }),
    {
        if self.contains_id(id) {
            return Err(ServiceError::DuplicateIdentity(id));
        }
        let record = Server { id: id, name: new.name, version: new.version, mods: new.mods };
        proof {
            assert(record@ == record_of(id, new@));
        }
        self.records.push(record);
        proof {
            assert(self@ =~= old(self)@.push(record_of(id, new@)));
            lemma_wf_push(old(self)@, record_of(id, new@));
        }
        Ok(())
    }

    /// Registry-assigned insertion: appends the payload under the smallest
    /// id not in use and returns that id.
    pub fn insert(&mut self, new: NewServer) -> (id: u64)
        requires
            wf(old(self)@),
        ensures
            wf(final(self)@),
            is_assigned_id(old(self)@, id),
            id == assigned_id(old(self)@),
            final(self)@ == old(self)@.push(record_of(id, new@)),
            final(self)@ == spec_insert(old(self)@, new@),
    {
        let ghost m = self@;
        let n = self.records.len();
        proof {
            assert(m.len() == n);
        }
        let mut id: u64 = 0;
        loop
            invariant
                self@ == m,
                wf(m),
                m.len() <= usize::MAX,
                forall|k: u64| k < id ==> has_id(m, k),
                id <= m.len(),
            ensures
                self@ == m,
                !has_id(m, id),
                forall|k: u64| k < id ==> has_id(m, k),
            decreases m.len() - id,
        {
            if !self.contains_id(id) {
                break ;
            }
            proof {
                lemma_ids_below(m, id);
            }
            id = id + 1;
        }
        proof {
            assert(is_assigned_id(m, id));
            lemma_assigned_id_unique(m, id, assigned_id(m));
        }
        let record = Server { id: id, name: new.name, version: new.version, mods: new.mods };
        proof {
            assert(record@ == record_of(id, new@));
        }
        self.records.push(record);
        proof {
            assert(self@ =~= m.push(record_of(id, new@)));
            lemma_wf_push(m, record_of(id, new@));
        }
        id
    }
}

/// Appending a record under an unused id keeps ids distinct.
pub(crate) proof fn lemma_wf_push(m: Seq<ServerModel>, r: ServerModel)
    requires
        wf(m),
        !has_id(m, r.id),
    ensures
        wf(m.push(r)),
{
    let m2 = m.push(r);
    assert forall|i: int, j: int| 0 <= i < j < m2.len() implies m2[i].id != m2[j].id by {
        if j < m.len() {
            assert(m2[i] == m[i]);
            assert(m2[j] == m[j]);
        } else {
            assert(m2[j] == r);
            assert(m2[i] == m[i]);
            assert(m[i].id != r.id);
        }
    }
}

/// Two caller-assigned insertions under one id: the first is accepted,
/// the second rejected as a duplicate identity with the store unchanged,
/// and exactly one record carries that id afterwards.
pub proof fn lemma_duplicate_identity(
    m: Seq<ServerModel>,
    id: u64,
    n1: NewServerModel,
    n2: NewServerModel,
)
    requires
        wf(m),
        !has_id(m, id),
    ensures
        ({
            let m1 = m.push(record_of(id, n1));
            &&& spec_insert_with_id(m, id, n1) == Ok::<Seq<ServerModel>, ServiceError>(m1)
            &&& wf(m1)
            &&& spec_insert_with_id(m1, id, n2) == Err::<Seq<ServerModel>, ServiceError>(
                ServiceError::DuplicateIdentity(id),
            )
            &&& count_id(m1, id) == 1
        }),
{
    let m1 = m.push(record_of(id, n1));
    lemma_wf_push(m, record_of(id, n1));
    assert(m1[m.len() as int].id == id);
    assert(has_id(m1, id));
    lemma_count_id_absent(m, id);
    assert(m1.drop_last() =~= m);
    assert(m1.last() == record_of(id, n1));
}

/// The registry after a whole sequence of registry-assigned insertions.
pub open spec fn spec_insert_all(m: Seq<ServerModel>, ns: Seq<NewServerModel>) -> Seq<ServerModel>
    decreases ns.len(),
{
    if ns.len() == 0 {
        m
    } else {
        spec_insert(spec_insert_all(m, ns.drop_last()), ns.last())
    }
}

/// Registry-assigned insertion any number of times yields that many new
/// records under pairwise distinct ids, and every record in the result is
/// found by its own id.
pub proof fn lemma_assigned_inserts(m: Seq<ServerModel>, ns: Seq<NewServerModel>)
    requires
        wf(m),
        m.len() + ns.len() <= u64::MAX,
    ensures
        ({
            let r = spec_insert_all(m, ns);
            &&& wf(r)
            &&& r.len() == m.len() + ns.len()
            &&& (forall|i: int|
                0 <= i < r.len() ==> spec_by_id(r, #[trigger] r[i].id) == Some(r[i]))
        }),
    decreases ns.len(),
{
    let r = spec_insert_all(m, ns);
    if ns.len() > 0 {
        lemma_assigned_inserts(m, ns.drop_last());
        let prev = spec_insert_all(m, ns.drop_last());
        lemma_assigned_id_exists(prev);
        lemma_wf_push(prev, record_of(assigned_id(prev), ns.last()));
    }
    assert forall|i: int| 0 <= i < r.len() implies spec_by_id(r, #[trigger] r[i].id) == Some(
        r[i],
    ) by {
        lemma_by_id_finds(r, i);
    }
}

} // verus!
