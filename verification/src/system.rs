//! Work units: schedulable wrappers around ordinary functions.
//!
//! A [`System`] bundles a function with the ordered list of resource
//! accesses it declares: the resource types it reads (shared) followed by
//! the resource types it writes (exclusive). The declaration is fixed at
//! construction, so an external scheduler can compute conflicts between
//! work units once and reuse the result. The wrapped function receives the
//! current values of the read resources and of the written resources, and
//! returns the new values for the written resources, or an application
//! error code that [`System::run`] passes through unchanged.

use vstd::prelude::*;
use crate::registry::{
    Access, AccessError, AcquiredHandle, Registry, Slot, acquire_outcome, step_acquire,
    can_acquire, granted, step_release, can_release, default_slot,
};

verus! {

/// Why a `run` call failed.
#[derive(Clone, Copy, PartialEq, Eq, Structural, Debug)]
pub enum RunError {
    /// The declared resources could not all be acquired.
    Acquisition(AccessError),
    /// The wrapped function returned its own error code, passed through
    /// unchanged.
    Application(u64),
}

/// Whether the declaration lists all shared reads before all exclusive
/// writes: the ordering convention every conversion produces.
pub open spec fn reads_then_writes(s: Seq<Access>) -> bool {
    forall|i: int, j: int| 0 <= i < j < s.len() && s[i].is_write() ==> s[j].is_write()
}

/// Whether the declaration names the resource type `id` at all.
pub open spec fn declares(s: Seq<Access>, id: u64) -> bool {
    exists|i: int| 0 <= i < s.len() && s[i].id() == id
}

/// Whether the declaration writes the resource type `id`.
pub open spec fn writes_id(s: Seq<Access>, id: u64) -> bool {
    exists|i: int| 0 <= i < s.len() && s[i].is_write() && s[i].id() == id
}

/// How many accesses of the declaration are writes.
pub open spec fn write_count(s: Seq<Access>) -> nat
    decreases s.len(),
{
    if s.len() == 0 {
        0
    } else {
        (if s[0].is_write() {
            1nat
        } else {
            0nat
        }) + write_count(s.skip(1))
    }
}

/// The values of the resource types the declaration reads, in declaration
/// order, taken from the slots `m`.
pub open spec fn read_values(m: Map<u64, Slot>, s: Seq<Access>) -> Seq<u64>
    decreases s.len(),
{
    if s.len() == 0 {
        Seq::empty()
    } else if s[0].is_write() {
        read_values(m, s.skip(1))
    } else {
        seq![m[s[0].id()].value] + read_values(m, s.skip(1))
    }
}

/// The values of the resource types the declaration writes, in declaration
/// order, taken from the slots `m`.
pub open spec fn write_values(m: Map<u64, Slot>, s: Seq<Access>) -> Seq<u64>
    decreases s.len(),
{
    if s.len() == 0 {
        Seq::empty()
    } else if s[0].is_write() {
        seq![m[s[0].id()].value] + write_values(m, s.skip(1))
    } else {
        write_values(m, s.skip(1))
    }
}

/// The slots `m` with the declaration's write targets replaced, in order,
/// by the values `w`; borrow counters and every other slot are untouched.
pub open spec fn write_back(m: Map<u64, Slot>, s: Seq<Access>, w: Seq<u64>) -> Map<u64, Slot>
    decreases s.len(),
{
    if s.len() == 0 {
        m
    } else if s[0].is_write() {
        if w.len() == 0 {
            m
        } else {
            let id = s[0].id();
            write_back(
                m.insert(id, Slot { value: w[0], shared: m[id].shared, exclusive: m[id].exclusive }),
                s.skip(1),
                w.skip(1),
            )
        }
    } else {
        write_back(m, s.skip(1), w)
    }
}

/// Relation between the slots before and after every resource type of the
/// declaration is initialized: declared absent types appear with the
/// default slot, and nothing else changes.
pub open spec fn initialized(m0: Map<u64, Slot>, s: Seq<Access>, m: Map<u64, Slot>) -> bool {
    &&& forall|id: u64| #[trigger] m.contains_key(id) <==> (m0.contains_key(id) || declares(s, id))
    &&& forall|id: u64| #[trigger] m0.contains_key(id) ==> m[id] == m0[id]
    &&& forall|id: u64| !m0.contains_key(id) && #[trigger] declares(s, id) ==> m[id] == default_slot()
}

/// Whether `out` is a possible result of calling the function `f` on the
/// values that the slots `m` hold for the declaration's reads and writes:
/// what a `run` call against a registry in state `m` hands to its wrapped
/// function, and what it may get back.
pub open spec fn invoked_on<F: Fn(Vec<u64>, Vec<u64>) -> Result<Vec<u64>, u64>>(
    f: F,
    m: Map<u64, Slot>,
    s: Seq<Access>,
    out: Result<Vec<u64>, u64>,
) -> bool {
    exists|rv: Vec<u64>, wv: Vec<u64>|
        rv@ == read_values(m, s) && wv@ == write_values(m, s) && #[trigger] call_ensures(
            f,
            (rv, wv),
            out,
        )
}

/// Whether `m` holds the same resource types as `m0`, each with the same
/// outstanding borrows.
pub open spec fn borrows_preserved(m0: Map<u64, Slot>, m: Map<u64, Slot>) -> bool {
    &&& m.dom() == m0.dom()
    &&& forall|id: u64| #[trigger] m0.contains_key(id) ==> m[id].shared == m0[id].shared
        && m[id].exclusive == m0[id].exclusive
}

/// Pushing one access onto a declaration adds its identifier to the
/// declared set and changes nothing else about it.
proof fn lemma_declares_push(s: Seq<Access>, a: Access)
    ensures
        forall|id: u64| #[trigger] declares(s.push(a), id) <==> (declares(s, id) || a.id() == id),
{
    assert forall|id: u64| #[trigger] declares(s.push(a), id) implies (declares(s, id) || a.id()
        == id) by {
        let i = choose|i: int| 0 <= i < s.push(a).len() && s.push(a)[i].id() == id;
        if i < s.len() {
            assert(s[i].id() == id);
        }
    }
    assert forall|id: u64| (declares(s, id) || a.id() == id) implies #[trigger] declares(
        s.push(a),
        id,
    ) by {
        if declares(s, id) {
            let i = choose|i: int| 0 <= i < s.len() && s[i].id() == id;
            assert(s.push(a)[i].id() == id);
        } else {
            assert(s.push(a)[s.len() as int].id() == id);
        }
    }
}

/// A declaration whose first `r` accesses are reads and whose remaining
/// accesses are writes has exactly `s.len() - r` writes.
proof fn lemma_write_count_of_shape(s: Seq<Access>, r: int)
    requires
        0 <= r <= s.len(),
        forall|k: int| 0 <= k < r ==> !s[k].is_write(),
        forall|k: int| r <= k < s.len() ==> s[k].is_write(),
    ensures
        write_count(s) == s.len() - r,
    decreases s.len(),
{
    if s.len() > 0 {
        if r > 0 {
            lemma_write_count_of_shape(s.skip(1), r - 1);
        } else {
            lemma_write_count_of_shape(s.skip(1), 0);
        }
    }
}

/// Acquiring a declaration extended by one access first acquires the
/// declaration, then the extra access.
proof fn lemma_acquire_outcome_push(m: Map<u64, Slot>, s: Seq<Access>, a: Access)
    ensures
        acquire_outcome(m, s.push(a)) == (match acquire_outcome(m, s) {
            Ok(m1) => step_acquire(m1, a),
            Err(e) => Err(e),
        }),
    decreases s.len(),
{
    let t = s.push(a);
    if s.len() == 0 {
        assert(t[0] == a);
        assert(t.skip(1) =~= Seq::<Access>::empty());
        assert(acquire_outcome(m, s) == Ok::<Map<u64, Slot>, AccessError>(m));
        match step_acquire(m, a) {
            Ok(m2) => {
                assert(acquire_outcome(m, t) == acquire_outcome(m2, t.skip(1)));
                assert(acquire_outcome(m2, t.skip(1)) == Ok::<Map<u64, Slot>, AccessError>(m2));
            },
            Err(e) => {
                assert(acquire_outcome(m, t) == Err::<Map<u64, Slot>, AccessError>(e));
            },
        }
    } else {
        assert(t[0] == s[0]);
        assert(t.skip(1) =~= s.skip(1).push(a));
        match step_acquire(m, s[0]) {
            Ok(m2) => {
                lemma_acquire_outcome_push(m2, s.skip(1), a);
                assert(acquire_outcome(m, t) == acquire_outcome(m2, t.skip(1)));
                assert(acquire_outcome(m, s) == acquire_outcome(m2, s.skip(1)));
            },
            Err(e) => {
                assert(acquire_outcome(m, t) == Err::<Map<u64, Slot>, AccessError>(e));
                assert(acquire_outcome(m, s) == Err::<Map<u64, Slot>, AccessError>(e));
            },
        }
    }
}

/// A successful acquisition only visits initialized resource types, and
/// only raises borrow counters: it changes neither the set of resource
/// types nor any stored value.
pub proof fn lemma_acquire_ok_facts(m: Map<u64, Slot>, s: Seq<Access>)
    requires
        acquire_outcome(m, s) is Ok,
    ensures
        (acquire_outcome(m, s)->Ok_0).dom() == m.dom(),
        forall|id: u64| #[trigger] m.contains_key(id) ==> (acquire_outcome(m, s)->Ok_0)[id].value
            == m[id].value,
        forall|i: int| 0 <= i < s.len() ==> m.contains_key(#[trigger] s[i].id()),
    decreases s.len(),
{
    if s.len() > 0 {
        let m2 = granted(m, s[0]);
        assert(m2.dom() =~= m.dom());
        lemma_acquire_ok_facts(m2, s.skip(1));
        assert forall|i: int| 0 <= i < s.len() implies m.contains_key(#[trigger] s[i].id()) by {
            if i > 0 {
                assert(s.skip(1)[i - 1] == s[i]);
            }
        }
    }
}

/// A declaration that does not write `id` still does not write it once its
/// first access is dropped.
proof fn lemma_writes_id_skip(s: Seq<Access>, id: u64)
    requires
        s.len() > 0,
        !writes_id(s, id),
    ensures
        !writes_id(s.skip(1), id),
{
    if writes_id(s.skip(1), id) {
        let i = choose|i: int|
            0 <= i < s.skip(1).len() && s.skip(1)[i].is_write() && s.skip(1)[i].id() == id;
        assert(s[i + 1].is_write() && s[i + 1].id() == id);
        assert(false);
    }
}

/// Writing values back touches only the declared write targets: the set of
/// resource types, every borrow counter, and the value of every other
/// resource type are unchanged.
pub proof fn lemma_write_back_frame(m: Map<u64, Slot>, s: Seq<Access>, w: Seq<u64>)
    requires
        forall|i: int| 0 <= i < s.len() ==> m.contains_key(#[trigger] s[i].id()),
    ensures
        write_back(m, s, w).dom() == m.dom(),
        forall|id: u64| #[trigger] m.contains_key(id) ==> write_back(m, s, w)[id].shared
            == m[id].shared && write_back(m, s, w)[id].exclusive == m[id].exclusive,
        forall|id: u64| m.contains_key(id) && !writes_id(s, id) ==> write_back(m, s, w)[id].value
            == m[id].value,
    decreases s.len(),
{
    if s.len() > 0 {
        let a = s[0];
        assert forall|i: int| 0 <= i < s.skip(1).len() implies m.contains_key(
            #[trigger] s.skip(1)[i].id(),
        ) by {
            assert(s.skip(1)[i] == s[i + 1]);
        }
        if a.is_write() && w.len() > 0 {
            let m1 = m.insert(
                a.id(),
                Slot { value: w[0], shared: m[a.id()].shared, exclusive: m[a.id()].exclusive },
            );
            assert(m1.dom() =~= m.dom());
            assert forall|i: int| 0 <= i < s.skip(1).len() implies m1.contains_key(
                #[trigger] s.skip(1)[i].id(),
            ) by {
                assert(s.skip(1)[i] == s[i + 1]);
            }
            lemma_write_back_frame(m1, s.skip(1), w.skip(1));
            assert forall|id: u64|
                m.contains_key(id) && !writes_id(s, id) implies write_back(m, s, w)[id].value
                == m[id].value by {
                if a.id() == id {
                    assert(writes_id(s, id));
                }
                lemma_writes_id_skip(s, id);
            }
        } else if a.is_write() {
        } else {
            lemma_write_back_frame(m, s.skip(1), w);
            assert forall|id: u64|
                m.contains_key(id) && !writes_id(s, id) implies write_back(m, s, w)[id].value
                == m[id].value by {
                lemma_writes_id_skip(s, id);
            }
        }
    }
}

/// Give back, in reverse order, the handles granted by acquiring the
/// declaration `s` against a registry whose slots were `m0`, restoring the
/// slots to exactly `m0`.
#[verifier::loop_isolation(false)]
fn release_all(
    registry: &mut Registry,
    handles: Vec<AcquiredHandle>,
    Ghost(m0): Ghost<Map<u64, Slot>>,
    Ghost(s): Ghost<Seq<Access>>,
)
    requires
        acquire_outcome(m0, s) == Ok::<Map<u64, Slot>, AccessError>(old(registry)@),
        handles@.len() == s.len(),
        forall|i: int| 0 <= i < s.len() ==> #[trigger] handles@[i].grants(s[i]),
    ensures
        final(registry)@ == m0,
{
    let mut handles = handles;
    proof {
        assert(s.take(s.len() as int) =~= s);
    }
    while handles.len() > 0
        invariant
            handles@.len() <= s.len(),
            acquire_outcome(m0, s.take(handles@.len() as int)) == Ok::<Map<u64, Slot>, AccessError>(
                registry@,
            ),
            forall|i: int| 0 <= i < handles@.len() ==> #[trigger] handles@[i].grants(s[i]),
        decreases handles@.len(),
    {
        let ghost j: int = handles@.len() as int;
        let h = handles.pop().unwrap();
        proof {
            assert(s.take(j - 1).push(s[j - 1]) =~= s.take(j));
            lemma_acquire_outcome_push(m0, s.take(j - 1), s[j - 1]);
            let mprev = acquire_outcome(m0, s.take(j - 1))->Ok_0;
            let a = s[j - 1];
            assert(can_acquire(mprev, a));
            assert(registry@ == granted(mprev, a));
            assert(h.grants(a));
            assert(can_release(registry@, h.id(), h.is_exclusive()));
            assert(step_release(granted(mprev, a), a.id(), a.is_write()) =~= mprev);
        }
        registry.release(h);
    }
    proof {
        assert(s.take(0) =~= Seq::<Access>::empty());
    }
}

/// A schedulable unit of work: a function together with the fixed, ordered
/// declaration of the resource accesses it needs.
pub struct System<F> {
    accesses: Vec<Access>,
    func: F,
    name: String,
}

impl<F> System<F> {
    /// The fixed access declaration, in read-then-write order.
    pub closed spec fn declaration(&self) -> Seq<Access> {
        self.accesses@
    }

    /// The wrapped function.
    pub closed spec fn function(&self) -> F {
        self.func
    }

    /// The diagnostic name.
    pub closed spec fn name_spec(&self) -> Seq<char> {
        self.name@
    }

    /// The declared accesses, in order, for conflict computation by a
    /// scheduler.
    pub fn accesses(&self) -> (r: &Vec<Access>)
        ensures
            r@ == self.declaration(),
    {
        &self.accesses
    }

    /// The diagnostic name of the wrapped function: useful for logs and
    /// traces, never stable enough for equality or dispatch decisions.
    pub fn name(&self) -> (r: &String)
        ensures
            r@ == self.name_spec(),
    {
        &self.name
    }

    /// Ensure every declared resource type exists in `registry` with a
    /// default instance; never overwrites an existing instance or its
    /// borrow counters. Calling it again changes nothing.
    #[verifier::loop_isolation(false)]
    pub fn initialize(&self, registry: &mut Registry)
        ensures
            initialized(old(registry)@, self.declaration(), final(registry)@),
    {
        let ghost m0 = old(registry)@;
        let n = self.accesses.len();
        let mut i: usize = 0;
        while i < n
            invariant
                n == self.declaration().len(),
                i <= n,
                initialized(m0, self.declaration().take(i as int), registry@),
            decreases n - i,
        {
            let id = self.accesses[i].get_id();
            registry.ensure_default(id);
            proof {
                lemma_declares_push(self.declaration().take(i as int), self.declaration()[i as int]);
                assert(self.declaration().take(i as int).push(self.declaration()[i as int])
                    =~= self.declaration().take(i + 1));
            }
            i += 1;
        }
        proof {
            assert(self.declaration().take(n as int) =~= self.declaration());
        }
    }

    /// Walk the declaration in fixed order, requesting a shared borrow for
    /// each `Read` entry and an exclusive borrow for each `Write` entry.
    /// Either every request succeeds and the full ordered set of handles is
    /// returned, or the error of the first request that fails is returned
    /// after every handle acquired in this call has been given back, leaving
    /// the registry exactly as it was.
    #[verifier::loop_isolation(false)]
    pub fn acquire(&self, registry: &mut Registry) -> (r: Result<Vec<AcquiredHandle>, AccessError>)
        ensures
            match r {
                Ok(handles) => {
                    &&& acquire_outcome(old(registry)@, self.declaration()) == Ok::<
                        Map<u64, Slot>,
                        AccessError,
                    >(final(registry)@)
                    &&& handles@.len() == self.declaration().len()
                    &&& forall|i: int|
                        0 <= i < self.declaration().len() ==> #[trigger] handles@[i].grants(
                            self.declaration()[i],
                        )
                },
                Err(e) => {
                    &&& acquire_outcome(old(registry)@, self.declaration()) == Err::<
                        Map<u64, Slot>,
                        AccessError,
                    >(e)
                    &&& final(registry)@ == old(registry)@
                },
            },
    {
        let ghost m0 = old(registry)@;
        let ghost decl = self.declaration();
        let n = self.accesses.len();
        let mut handles: Vec<AcquiredHandle> = Vec::new();
        let mut i: usize = 0;
        proof {
            assert(decl.take(0) =~= Seq::<Access>::empty());
            assert(decl.skip(0) =~= decl);
        }
        while i < n
            invariant
                n == decl.len(),
                decl == self.declaration(),
                i <= n,
                handles@.len() == i,
                forall|k: int| 0 <= k < i ==> #[trigger] handles@[k].grants(decl[k]),
                acquire_outcome(m0, decl.take(i as int)) == Ok::<Map<u64, Slot>, AccessError>(
                    registry@,
                ),
                acquire_outcome(m0, decl) == acquire_outcome(registry@, decl.skip(i as int)),
            decreases n - i,
        {
            let a = self.accesses[i];
            proof {
                assert(decl.skip(i as int)[0] == decl[i as int]);
                assert(decl.skip(i as int).skip(1) =~= decl.skip(i as int + 1));
                assert(decl.take(i as int).push(decl[i as int]) =~= decl.take(i as int + 1));
            }
            let res = registry.try_acquire(a);
            match res {
                Ok(h) => {
                    proof {
                        lemma_acquire_outcome_push(m0, decl.take(i as int), decl[i as int]);
                    }
                    handles.push(h);
                    i += 1;
                },
                Err(e) => {
                    proof {
                        assert(acquire_outcome(m0, decl) == Err::<Map<u64, Slot>, AccessError>(e));
                    }
                    release_all(registry, handles, Ghost(m0), Ghost(decl.take(i as int)));
                    return Err(e);
                },
            }
        }
        proof {
            assert(decl.skip(n as int) =~= Seq::<Access>::empty());
        }
        Ok(handles)
    }
}

impl<F: Fn(Vec<u64>, Vec<u64>) -> Result<Vec<u64>, u64>> System<F> {
    /// Whether the wrapped function accepts every pair of value vectors and,
    /// on success, returns exactly one new value per declared write.
    pub open spec fn func_ok(&self) -> bool {
        &&& forall|args: (Vec<u64>, Vec<u64>)| #[trigger] call_requires(self.function(), args)
        &&& forall|args: (Vec<u64>, Vec<u64>), out: Result<Vec<u64>, u64>|
            #[trigger] call_ensures(self.function(), args, out) ==> (out matches Ok(nw)
                ==> nw@.len() == write_count(self.declaration()))
    }

    /// A work unit is well formed when its declaration lists all reads
    /// before all writes and its function fits the declaration.
    pub open spec fn wf(&self) -> bool {
        &&& reads_then_writes(self.declaration())
        &&& self.func_ok()
    }

    /// Convert `func` into a work unit that reads the resource types in
    /// `reads` (shared access) and writes the resource types in `writes`
    /// (exclusive access). The declared access sequence is exactly one
    /// `Read` entry per read type followed by one `Write` entry per write
    /// type, in the given order. No resource type may appear twice across
    /// both lists; a duplicate makes every acquisition fail against itself.
    /// `name` is kept as the work unit's diagnostic name.
    #[verifier::loop_isolation(false)]
    pub fn new(func: F, reads: Vec<u64>, writes: Vec<u64>, name: String) -> (s: System<F>)
        requires
            forall|args: (Vec<u64>, Vec<u64>)| #[trigger] call_requires(func, args),
            forall|args: (Vec<u64>, Vec<u64>), out: Result<Vec<u64>, u64>|
                #[trigger] call_ensures(func, args, out) ==> (out matches Ok(nw) ==> nw@.len()
                    == writes@.len()),
        ensures
            s.wf(),
            s.function() == func,
            s.name_spec() == name@,
            s.declaration().len() == reads@.len() + writes@.len(),
            forall|i: int| 0 <= i < reads@.len() ==> s.declaration()[i] == Access::Read(reads@[i]),
            forall|i: int|
                0 <= i < writes@.len() ==> s.declaration()[reads@.len() + i] == Access::Write(
                    writes@[i],
                ),
    {
        let mut accesses: Vec<Access> = Vec::new();
        let mut i: usize = 0;
        while i < reads.len()
            invariant
                i <= reads.len(),
                accesses@.len() == i,
                forall|k: int| 0 <= k < i ==> accesses@[k] == Access::Read(reads@[k]),
            decreases reads.len() - i,
        {
            accesses.push(Access::Read(reads[i]));
            i += 1;
        }
        let mut j: usize = 0;
        while j < writes.len()
            invariant
                j <= writes.len(),
                accesses@.len() == reads@.len() + j,
                forall|k: int| 0 <= k < reads@.len() ==> accesses@[k] == Access::Read(reads@[k]),
                forall|k: int|
                    0 <= k < j ==> accesses@[reads@.len() + k] == Access::Write(writes@[k]),
            decreases writes.len() - j,
        {
            accesses.push(Access::Write(writes[j]));
            j += 1;
        }
        proof {
            assert forall|k: int| 0 <= k < reads@.len() implies !accesses@[k].is_write() by {
                assert(accesses@[k] == Access::Read(reads@[k]));
            }
            assert forall|k: int|
                reads@.len() <= k < accesses@.len() implies accesses@[k].is_write() by {
                assert(accesses@[reads@.len() + (k - reads@.len())] == Access::Write(
                    writes@[k - reads@.len()],
                ));
            }
            lemma_write_count_of_shape(accesses@, reads@.len() as int);
        }
        System { accesses, func, name }
    }

    /// Acquire the declared resources, invoke the wrapped function on their
    /// current values, and write the values it returns back to the declared
    /// write targets. An acquisition failure and an error of the function
    /// itself surface as distinguishable variants. Every borrow taken during
    /// the call is given back before it returns, on every exit path, so a
    /// later acquisition of the same resource types can succeed.
    #[verifier::loop_isolation(false)]
    pub fn run(&self, registry: &mut Registry) -> (r: Result<(), RunError>)
        requires
            self.wf(),
        ensures
            borrows_preserved(old(registry)@, final(registry)@),
            r is Err ==> final(registry)@ == old(registry)@,
            r matches Err(RunError::Acquisition(e)) ==> acquire_outcome(
                old(registry)@,
                self.declaration(),
            ) == Err::<Map<u64, Slot>, AccessError>(e),
            r matches Err(RunError::Application(_)) || r is Ok ==> acquire_outcome(
                old(registry)@,
                self.declaration(),
            ) is Ok,
            r matches Err(RunError::Application(code)) ==> invoked_on(
                self.function(),
                old(registry)@,
                self.declaration(),
                Err(code),
            ),
            r is Ok ==> exists|nw: Vec<u64>|
                #[trigger] invoked_on(self.function(), old(registry)@, self.declaration(), Ok(nw))
                    && final(registry)@ == write_back(old(registry)@, self.declaration(), nw@),
    {
        let ghost m0 = old(registry)@;
        let ghost decl = self.declaration();
        let handles = match self.acquire(registry) {
            Ok(handles) => handles,
            Err(e) => {
                return Err(RunError::Acquisition(e));
            },
        };
        release_all(registry, handles, Ghost(m0), Ghost(decl));
        proof {
            lemma_acquire_ok_facts(m0, decl);
        }
        let n = self.accesses.len();
        let mut rvals: Vec<u64> = Vec::new();
        let mut wvals: Vec<u64> = Vec::new();
        let mut i: usize = 0;
        proof {
            assert(decl.skip(0) =~= decl);
            assert(rvals@ + read_values(m0, decl) =~= read_values(m0, decl));
            assert(wvals@ + write_values(m0, decl) =~= write_values(m0, decl));
        }
        while i < n
            invariant
                n == decl.len(),
                decl == self.declaration(),
                i <= n,
                registry@ == m0,
                forall|k: int| 0 <= k < decl.len() ==> m0.contains_key(#[trigger] decl[k].id()),
                rvals@ + read_values(m0, decl.skip(i as int)) == read_values(m0, decl),
                wvals@ + write_values(m0, decl.skip(i as int)) == write_values(m0, decl),
            decreases n - i,
        {
            let a = self.accesses[i];
            let v = match registry.get_value(a.get_id()) {
                Some(v) => v,
                None => {
                    proof {
                        assert(false);
                    }
                    0
                },
            };
            proof {
                assert(decl.skip(i as int)[0] == decl[i as int]);
                assert(decl.skip(i as int).skip(1) =~= decl.skip(i as int + 1));
            }
            if a.is_write_access() {
                let ghost prev = wvals@;
                wvals.push(v);
                proof {
                    assert(prev.push(v) + write_values(m0, decl.skip(i as int + 1)) =~= prev + (
                    seq![v] + write_values(m0, decl.skip(i as int + 1))));
                }
            } else {
                let ghost prev = rvals@;
                rvals.push(v);
                proof {
                    assert(prev.push(v) + read_values(m0, decl.skip(i as int + 1)) =~= prev + (
                    seq![v] + read_values(m0, decl.skip(i as int + 1))));
                }
            }
            i += 1;
        }
        proof {
            assert(decl.skip(n as int) =~= Seq::<Access>::empty());
            assert(rvals@ + Seq::<u64>::empty() =~= rvals@);
            assert(wvals@ + Seq::<u64>::empty() =~= wvals@);
        }
        let ghost grv = rvals;
        let ghost gwv = wvals;
        proof {
            assert(call_requires(self.function(), (rvals, wvals)));
        }
        let out = (self.func)(rvals, wvals);
        match out {
            Err(code) => {
                proof {
                    assert(call_ensures(self.function(), (grv, gwv), Err::<Vec<u64>, u64>(code)));
                    assert(grv@ == read_values(m0, decl) && gwv@ == write_values(m0, decl));
                    assert(invoked_on(self.function(), m0, decl, Err::<Vec<u64>, u64>(code)));
                }
                Err(RunError::Application(code))
            },
            Ok(nw) => {
                proof {
                    assert(call_ensures(self.function(), (grv, gwv), Ok::<Vec<u64>, u64>(nw)));
                    assert(grv@ == read_values(m0, decl) && gwv@ == write_values(m0, decl));
                    assert(invoked_on(self.function(), m0, decl, Ok::<Vec<u64>, u64>(nw)));
                    assert(nw@.skip(0) =~= nw@);
                }
                let nw_len = nw.len();
                let mut k: usize = 0;
                let mut i2: usize = 0;
                while i2 < n
                    invariant
                        n == decl.len(),
                        decl == self.declaration(),
                        i2 <= n,
                        k <= nw@.len(),
                        nw@.len() == nw_len,
                        forall|kk: int|
                            0 <= kk < decl.len() ==> m0.contains_key(#[trigger] decl[kk].id()),
                        registry@.dom() == m0.dom(),
                        nw@.len() - k == write_count(decl.skip(i2 as int)),
                        write_back(m0, decl, nw@) == write_back(
                            registry@,
                            decl.skip(i2 as int),
                            nw@.skip(k as int),
                        ),
                    decreases n - i2,
                {
                    let a = self.accesses[i2];
                    proof {
                        assert(decl.skip(i2 as int)[0] == decl[i2 as int]);
                        assert(decl.skip(i2 as int).skip(1) =~= decl.skip(i2 as int + 1));
                    }
                    if a.is_write_access() {
                        proof {
                            assert(write_count(decl.skip(i2 as int)) >= 1);
                            assert(nw@.skip(k as int)[0] == nw@[k as int]);
                            assert(nw@.skip(k as int).skip(1) =~= nw@.skip(k as int + 1));
                        }
                        let ghost before = registry@;
                        registry.set_value(a.get_id(), nw[k]);
                        proof {
                            assert(registry@.dom() =~= before.dom());
                        }
                        k += 1;
                    }
                    i2 += 1;
                }
                proof {
                    assert(decl.skip(n as int) =~= Seq::<Access>::empty());
                    assert(write_back(registry@, decl.skip(n as int), nw@.skip(k as int))
                        == registry@);
                    assert(registry@ == write_back(m0, decl, nw@));
                    lemma_write_back_frame(m0, decl, nw@);
                }
                Ok(())
            },
        }
    }
}

/// Converts a function into a [`System`]. Implemented for every function
/// that takes the declared read values and the current write values, and
/// returns the new write values or an application error code.
pub trait IntoSystem: Sized + Fn(Vec<u64>, Vec<u64>) -> Result<Vec<u64>, u64> {
    /// Convert `self` into a work unit, as [`System::new`] does: the
    /// declared access sequence is exactly one `Read` entry per entry of
    /// `reads` followed by one `Write` entry per entry of `writes`, in the
    /// given order; `name` is kept as the diagnostic name.
    fn system(self, reads: Vec<u64>, writes: Vec<u64>, name: String) -> (s: System<Self>)
        requires
            forall|args: (Vec<u64>, Vec<u64>)| #[trigger] call_requires(self, args),
            forall|args: (Vec<u64>, Vec<u64>), out: Result<Vec<u64>, u64>|
                #[trigger] call_ensures(self, args, out) ==> (out matches Ok(nw) ==> nw@.len()
                    == writes@.len()),
        ensures
            s.wf(),
            s.function() == self,
            s.name_spec() == name@,
            s.declaration().len() == reads@.len() + writes@.len(),
            forall|i: int| 0 <= i < reads@.len() ==> s.declaration()[i] == Access::Read(reads@[i]),
            forall|i: int|
                0 <= i < writes@.len() ==> s.declaration()[reads@.len() + i] == Access::Write(
                    writes@[i],
                ),
    ;
}

impl<F: Fn(Vec<u64>, Vec<u64>) -> Result<Vec<u64>, u64>> IntoSystem for F {
    fn system(self, reads: Vec<u64>, writes: Vec<u64>, name: String) -> (s: System<F>) {
        System::new(self, reads, writes, name)
    }
}

/// Whether the declaration reads the resource type `id`.
pub open spec fn reads_id(s: Seq<Access>, id: u64) -> bool {
    exists|i: int| 0 <= i < s.len() && !s[i].is_write() && s[i].id() == id
}

/// How many accesses of the declaration are reads of the resource type `id`.
pub open spec fn count_reads(s: Seq<Access>, id: u64) -> nat
    decreases s.len(),
{
    if s.len() == 0 {
        0
    } else {
        (if !s[0].is_write() && s[0].id() == id {
            1nat
        } else {
            0nat
        }) + count_reads(s.skip(1), id)
    }
}

/// A declaration cannot read one resource type more often than it has
/// accesses.
proof fn lemma_count_reads_le_len(s: Seq<Access>, id: u64)
    ensures
        count_reads(s, id) <= s.len(),
    decreases s.len(),
{
    if s.len() > 0 {
        lemma_count_reads_le_len(s.skip(1), id);
    }
}

/// What a non-empty declaration declares, reads or writes is what its first
/// access contributes plus what the rest contributes.
proof fn lemma_access_predicates_unfold(s: Seq<Access>)
    requires
        s.len() > 0,
    ensures
        forall|id: u64| #[trigger] declares(s, id) <==> (s[0].id() == id || declares(
            s.skip(1),
            id,
        )),
        forall|id: u64| #[trigger] writes_id(s, id) <==> ((s[0].is_write() && s[0].id() == id)
            || writes_id(s.skip(1), id)),
        forall|id: u64| #[trigger] reads_id(s, id) <==> ((!s[0].is_write() && s[0].id() == id)
            || reads_id(s.skip(1), id)),
{
    assert forall|id: u64| #[trigger] declares(s, id) implies (s[0].id() == id || declares(
        s.skip(1),
        id,
    )) by {
        let i = choose|i: int| 0 <= i < s.len() && s[i].id() == id;
        if i > 0 {
            assert(s.skip(1)[i - 1].id() == id);
        }
    }
    assert forall|id: u64| (s[0].id() == id || declares(s.skip(1), id)) implies #[trigger] declares(
        s,
        id,
    ) by {
        if declares(s.skip(1), id) {
            let i = choose|i: int| 0 <= i < s.skip(1).len() && s.skip(1)[i].id() == id;
            assert(s[i + 1].id() == id);
        }
    }
    assert forall|id: u64| #[trigger] writes_id(s, id) implies ((s[0].is_write() && s[0].id() == id)
        || writes_id(s.skip(1), id)) by {
        let i = choose|i: int| 0 <= i < s.len() && s[i].is_write() && s[i].id() == id;
        if i > 0 {
            assert(s.skip(1)[i - 1].is_write() && s.skip(1)[i - 1].id() == id);
        }
    }
    assert forall|id: u64| ((s[0].is_write() && s[0].id() == id) || writes_id(
        s.skip(1),
        id,
    )) implies #[trigger] writes_id(s, id) by {
        if writes_id(s.skip(1), id) {
            let i = choose|i: int| 0 <= i < s.skip(1).len() && s.skip(1)[i].is_write()
                && s.skip(1)[i].id() == id;
            assert(s[i + 1].is_write() && s[i + 1].id() == id);
        } else {
            assert(s[0].is_write() && s[0].id() == id);
        }
    }
    assert forall|id: u64| #[trigger] reads_id(s, id) implies ((!s[0].is_write() && s[0].id() == id)
        || reads_id(s.skip(1), id)) by {
        let i = choose|i: int| 0 <= i < s.len() && !s[i].is_write() && s[i].id() == id;
        if i > 0 {
            assert(!s.skip(1)[i - 1].is_write() && s.skip(1)[i - 1].id() == id);
        }
    }
    assert forall|id: u64| ((!s[0].is_write() && s[0].id() == id) || reads_id(
        s.skip(1),
        id,
    )) implies #[trigger] reads_id(s, id) by {
        if reads_id(s.skip(1), id) {
            let i = choose|i: int| 0 <= i < s.skip(1).len() && !s.skip(1)[i].is_write()
                && s.skip(1)[i].id() == id;
            assert(!s[i + 1].is_write() && s[i + 1].id() == id);
        } else {
            assert(!s[0].is_write() && s[0].id() == id);
        }
    }
}

/// How a successful acquisition moves each slot's borrow counters: shared
/// counts only grow, and only by the declaration's reads of that type; the
/// exclusive flag is set exactly on the declaration's write targets.
proof fn lemma_acquire_borrow_bounds(m: Map<u64, Slot>, s: Seq<Access>)
    requires
        acquire_outcome(m, s) is Ok,
    ensures
        forall|id: u64| #[trigger] m.contains_key(id) ==> {
            let mr = acquire_outcome(m, s)->Ok_0;
            &&& mr[id].shared >= m[id].shared
            &&& mr[id].shared <= m[id].shared + count_reads(s, id)
            &&& (m[id].exclusive ==> mr[id].exclusive)
            &&& (!reads_id(s, id) ==> mr[id].shared == m[id].shared)
            &&& (mr[id].exclusive && !m[id].exclusive ==> writes_id(s, id))
        },
        forall|id: u64| #[trigger] writes_id(s, id) ==> (acquire_outcome(m, s)->Ok_0)[id].exclusive,
        forall|id: u64| #[trigger] reads_id(s, id) ==> (acquire_outcome(m, s)->Ok_0)[id].shared
            >= 1,
    decreases s.len(),
{
    lemma_acquire_ok_facts(m, s);
    if s.len() > 0 {
        lemma_access_predicates_unfold(s);
        let a = s[0];
        let m2 = granted(m, a);
        assert(m2.dom() =~= m.dom());
        lemma_acquire_borrow_bounds(m2, s.skip(1));
    }
}

/// No declaration that touches an exclusively borrowed resource type can be
/// acquired.
proof fn lemma_exclusive_blocks(m: Map<u64, Slot>, s: Seq<Access>, id: u64)
    requires
        m.contains_key(id),
        m[id].exclusive,
        acquire_outcome(m, s) is Ok,
    ensures
        !declares(s, id),
    decreases s.len(),
{
    if s.len() > 0 {
        lemma_access_predicates_unfold(s);
        let a = s[0];
        assert(can_acquire(m, a));
        assert(a.id() != id);
        let m2 = granted(m, a);
        assert(m2.dom() =~= m.dom());
        assert(m2[id] == m[id]);
        lemma_exclusive_blocks(m2, s.skip(1), id);
    }
}

/// No declaration that writes a resource type under an outstanding shared
/// borrow can be acquired.
proof fn lemma_shared_blocks_write(m: Map<u64, Slot>, s: Seq<Access>, id: u64)
    requires
        m.contains_key(id),
        m[id].shared >= 1,
        acquire_outcome(m, s) is Ok,
    ensures
        !writes_id(s, id),
    decreases s.len(),
{
    if s.len() > 0 {
        lemma_access_predicates_unfold(s);
        let a = s[0];
        assert(can_acquire(m, a));
        let m2 = granted(m, a);
        assert(m2.dom() =~= m.dom());
        assert(m2[id].shared >= 1);
        lemma_shared_blocks_write(m2, s.skip(1), id);
    }
}

/// A declaration that can be acquired from the slots `x` can also be
/// acquired from slots `y` that carry extra borrows, as long as the extra
/// shared borrows sit on types the declaration does not write, the extra
/// exclusive borrows sit on types it does not touch, and its reads still
/// fit under every shared counter's ceiling.
proof fn lemma_acquire_under_extra_borrows(x: Map<u64, Slot>, y: Map<u64, Slot>, s: Seq<Access>)
    requires
        x.dom() == y.dom(),
        acquire_outcome(x, s) is Ok,
        forall|id: u64| #[trigger] x.contains_key(id) ==> x[id].shared <= y[id].shared,
        forall|id: u64| #[trigger] x.contains_key(id) ==> y[id].shared + count_reads(s, id)
            <= usize::MAX,
        forall|id: u64| #[trigger] x.contains_key(id) && y[id].shared > x[id].shared ==> !writes_id(
            s,
            id,
        ),
        forall|id: u64| #[trigger] x.contains_key(id) && y[id].exclusive && !x[id].exclusive
            ==> !declares(s, id),
        forall|id: u64| #[trigger] x.contains_key(id) && x[id].exclusive ==> !declares(s, id),
    ensures
        acquire_outcome(y, s) is Ok,
    decreases s.len(),
{
    if s.len() > 0 {
        lemma_access_predicates_unfold(s);
        let a = s[0];
        let id = a.id();
        assert(can_acquire(x, a));
        assert(declares(s, id));
        assert(!y[id].exclusive);
        if a.is_write() {
            assert(y[id].shared == x[id].shared);
            assert(can_acquire(y, a));
        } else {
            assert(count_reads(s, id) >= 1);
            assert(y[id].shared < usize::MAX);
            assert(can_acquire(y, a));
        }
        let x2 = granted(x, a);
        let y2 = granted(y, a);
        assert(x2.dom() =~= x.dom());
        assert(y2.dom() =~= y.dom());
        assert forall|id2: u64| #[trigger] x2.contains_key(id2) implies y2[id2].shared
            + count_reads(s.skip(1), id2) <= usize::MAX by {
            assert(x.contains_key(id2));
            assert(count_reads(s, id2) == (if !a.is_write() && id2 == id {
                1nat
            } else {
                0nat
            }) + count_reads(s.skip(1), id2));
        }
        if a.is_write() {
            lemma_exclusive_blocks(x2, s.skip(1), id);
        }
        assert forall|id2: u64|
            #[trigger] x2.contains_key(id2) && y2[id2].shared > x2[id2].shared implies !writes_id(
            s.skip(1),
            id2,
        ) by {
            assert(x.contains_key(id2));
            assert(y[id2].shared > x[id2].shared);
            assert(!writes_id(s, id2));
        }
        assert forall|id2: u64|
            #[trigger] x2.contains_key(id2) && y2[id2].exclusive && !x2[id2].exclusive
            implies !declares(s.skip(1), id2) by {
            assert(x.contains_key(id2));
            assert(y[id2].exclusive && !x[id2].exclusive);
            assert(!declares(s, id2));
        }
        assert forall|id2: u64|
            #[trigger] x2.contains_key(id2) && x2[id2].exclusive implies !declares(
            s.skip(1),
            id2,
        ) by {
            assert(x.contains_key(id2));
            if id2 == id {
                assert(a.is_write());
            } else {
                assert(x[id2].exclusive);
                assert(!declares(s, id2));
            }
        }
        lemma_acquire_under_extra_borrows(x2, y2, s.skip(1));
    }
}

/// Initializing a work unit's declared resources is idempotent: a second
/// initialization against the same declaration finds every declared
/// resource type present and changes neither a value nor a borrow counter.
pub proof fn lemma_initialize_idempotent(
    m0: Map<u64, Slot>,
    s: Seq<Access>,
    m1: Map<u64, Slot>,
    m2: Map<u64, Slot>,
)
    requires
        initialized(m0, s, m1),
        initialized(m1, s, m2),
    ensures
        m2 == m1,
{
    assert(m2 =~= m1);
}

/// Registries that agree on every borrow counter agree on which
/// declarations can be acquired: since `run` gives every borrow back on
/// every exit path, a declaration can be acquired after a `run` call
/// exactly when it could be acquired before it.
pub proof fn lemma_borrows_preserved_acquire(
    m0: Map<u64, Slot>,
    m1: Map<u64, Slot>,
    s: Seq<Access>,
)
    requires
        borrows_preserved(m0, m1),
    ensures
        acquire_outcome(m0, s) is Ok <==> acquire_outcome(m1, s) is Ok,
    decreases s.len(),
{
    if s.len() > 0 {
        let a = s[0];
        assert(m0.contains_key(a.id()) <==> m1.contains_key(a.id()));
        if can_acquire(m0, a) {
            assert(can_acquire(m1, a));
            assert(granted(m0, a).dom() =~= granted(m1, a).dom());
            assert(borrows_preserved(granted(m0, a), granted(m1, a)));
            lemma_borrows_preserved_acquire(granted(m0, a), granted(m1, a), s.skip(1));
        } else {
            assert(!can_acquire(m1, a));
        }
    }
}

/// Two declarations can be acquired concurrently against the same registry
/// (the second acquisition starting while the first set of handles is
/// outstanding) exactly when every resource type they share is read on
/// both sides. Stated against a registry with no outstanding borrow where
/// each declaration can be acquired on its own; the length bound keeps the
/// shared counters below their ceiling.
pub proof fn lemma_concurrent_acquire(m: Map<u64, Slot>, s1: Seq<Access>, s2: Seq<Access>)
    requires
        forall|id: u64| #[trigger] m.contains_key(id) ==> m[id].shared == 0 && !m[id].exclusive,
        acquire_outcome(m, s1) is Ok,
        acquire_outcome(m, s2) is Ok,
        s1.len() + s2.len() <= usize::MAX,
    ensures
        acquire_outcome(acquire_outcome(m, s1)->Ok_0, s2) is Ok <==> (forall|i: int, j: int|
            0 <= i < s1.len() && 0 <= j < s2.len() && s1[i].id() == s2[j].id() ==> (
            !s1[i].is_write() && !s2[j].is_write())),
{
    let m1 = acquire_outcome(m, s1)->Ok_0;
    lemma_acquire_ok_facts(m, s1);
    lemma_acquire_borrow_bounds(m, s1);
    if acquire_outcome(m1, s2) is Ok {
        assert forall|i: int, j: int|
            0 <= i < s1.len() && 0 <= j < s2.len() && s1[i].id() == s2[j].id() implies (
        !s1[i].is_write() && !s2[j].is_write()) by {
            let id = s1[i].id();
            assert(m.contains_key(id));
            if s1[i].is_write() {
                assert(writes_id(s1, id));
                assert(m1[id].exclusive);
                lemma_exclusive_blocks(m1, s2, id);
                assert(s2[j].id() == id);
                assert(!declares(s2, id));
                assert(false);
            } else if s2[j].is_write() {
                assert(reads_id(s1, id));
                assert(m1[id].shared >= 1);
                lemma_shared_blocks_write(m1, s2, id);
                assert(writes_id(s2, id));
                assert(false);
            }
        }
    }
    if (forall|i: int, j: int|
        0 <= i < s1.len() && 0 <= j < s2.len() && s1[i].id() == s2[j].id() ==> (!s1[i].is_write()
            && !s2[j].is_write())) {
        assert forall|id: u64| #[trigger] m.contains_key(id) implies m1[id].shared + count_reads(
            s2,
            id,
        ) <= usize::MAX by {
            lemma_count_reads_le_len(s1, id);
            lemma_count_reads_le_len(s2, id);
        }
        assert forall|id: u64|
            #[trigger] m.contains_key(id) && m1[id].shared > m[id].shared implies !writes_id(
            s2,
            id,
        ) by {
            assert(reads_id(s1, id));
            let i = choose|i: int| 0 <= i < s1.len() && !s1[i].is_write() && s1[i].id() == id;
            if writes_id(s2, id) {
                let j = choose|j: int| 0 <= j < s2.len() && s2[j].is_write() && s2[j].id() == id;
                assert(s1[i].id() == s2[j].id());
                assert(false);
            }
        }
        assert forall|id: u64|
            #[trigger] m.contains_key(id) && m1[id].exclusive && !m[id].exclusive implies !declares(
            s2,
            id,
        ) by {
            assert(writes_id(s1, id));
            let i = choose|i: int| 0 <= i < s1.len() && s1[i].is_write() && s1[i].id() == id;
            if declares(s2, id) {
                let j = choose|j: int| 0 <= j < s2.len() && s2[j].id() == id;
                assert(s1[i].id() == s2[j].id());
                assert(false);
            }
        }
        lemma_acquire_under_extra_borrows(m, m1, s2);
    }
}

} // verus!
