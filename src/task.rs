use crate::name::TaskName;
use std::cmp::Ordering;
use vstd::prelude::*;

verus! {

/// What one resume step of a coroutine hands back.
#[derive(Debug, PartialEq, Eq)]
pub enum Pause<I, T> {
    /// Suspend, and hand control and a message to the named task.
    Yield(I, T),
    /// Stop the whole run with a final value.
    Done(T),
}

/// Why a run failed.
#[derive(Debug, PartialEq, Eq)]
pub enum RunError<I> {
    /// A task was asked for (the starting one, or the target of a hand-off)
    /// under a name that nothing was registered with.
    UnknownTask(I),
}

/// Names in strictly increasing order of rank, hence without repetition.
pub open spec fn names_sorted<I: TaskName>(s: Seq<I>) -> bool {
    forall|i: int, j: int| 0 <= i < j < s.len() ==> (#[trigger] s[i]).rank() < (#[trigger] s[j]).rank()
}

/// The names of an ordered list of entries.
pub open spec fn names_of<I, C>(e: Seq<(I, C)>) -> Seq<I> {
    e.map_values(|p: (I, C)| p.0)
}

/// Whether some entry carries the name `n`.
pub open spec fn has_name<I, C>(e: Seq<(I, C)>, n: I) -> bool {
    exists|i: int| 0 <= i < e.len() && (#[trigger] e[i]).0 == n
}

/// The index of the entry named `n` (meaningful when there is one).
pub open spec fn slot<I, C>(e: Seq<(I, C)>, n: I) -> int {
    choose|i: int| 0 <= i < e.len() && (#[trigger] e[i]).0 == n
}

/// Whether `p` is where `n` belongs among sorted names: every name before it
/// ranks lower, none from it on does.
pub open spec fn is_position<I: TaskName>(s: Seq<I>, n: I, p: int) -> bool {
    &&& 0 <= p <= s.len()
    &&& forall|k: int| 0 <= k < p ==> (#[trigger] s[k]).rank() < n.rank()
    &&& forall|k: int| p <= k < s.len() ==> (#[trigger] s[k]).rank() >= n.rank()
}

/// Where a new name goes in a list of sorted names.
pub open spec fn position<I: TaskName>(s: Seq<I>, n: I) -> int {
    choose|p: int| is_position(s, n, p)
}

/// The entries after registering coroutine `c` under name `n`: an entry of
/// that name gets the new coroutine in place; otherwise a new entry goes where
/// the name belongs in the order.
pub open spec fn register<I: TaskName, C>(e: Seq<(I, C)>, n: I, c: C) -> Seq<(I, C)> {
    if has_name(e, n) {
        e.update(slot(e, n), (n, c))
    } else {
        e.insert(position(names_of(e), n), (n, c))
    }
}

/// The coroutine registered under `n`, if any.
pub open spec fn lookup<I, C>(e: Seq<(I, C)>, n: I) -> Option<C> {
    if has_name(e, n) {
        Some(e[slot(e, n)].1)
    } else {
        None
    }
}

/// The entries after registering each pair of `regs`, in order, from none.
pub open spec fn registered<I: TaskName, C>(regs: Seq<(I, C)>) -> Seq<(I, C)>
    decreases regs.len(),
{
    if regs.len() == 0 {
        Seq::empty()
    } else {
        register(registered(regs.drop_last()), regs.last().0, regs.last().1)
    }
}

/// The coroutine that was registered last under `n` in `regs`, if any.
pub open spec fn last_registered<I, C>(regs: Seq<(I, C)>, n: I) -> Option<C>
    decreases regs.len(),
{
    if regs.len() == 0 {
        None
    } else if regs.last().0 == n {
        Some(regs.last().1)
    } else {
        last_registered(regs.drop_last(), n)
    }
}

/// The result of a run from task `next` with message `msg` over entries `e`,
/// if it ends within `fuel` resumes; `None` if it does not.
pub open spec fn outcome<I: TaskName, T, C: Coroutine<I, T>>(
    e: Seq<(I, C)>,
    next: I,
    msg: T,
    fuel: nat,
) -> Option<Result<T, RunError<I>>>
    decreases fuel,
{
    if fuel == 0 {
        None
    } else if !has_name(e, next) {
        Some(Err(RunError::UnknownTask(next)))
    } else {
        let i = slot(e, next);
        let step = e[i].1.spec_resume(msg);
        match step.1 {
            Pause::Done(v) => Some(Ok(v)),
            Pause::Yield(n, m) => outcome(e.update(i, (next, step.0)), n, m, (fuel - 1) as nat),
        }
    }
}

/// The (task, message) pairs that a run resumes, in order, within `fuel`
/// resumes.
pub open spec fn resumes<I: TaskName, T, C: Coroutine<I, T>>(
    e: Seq<(I, C)>,
    next: I,
    msg: T,
    fuel: nat,
) -> Seq<(I, T)>
    decreases fuel,
{
    if fuel == 0 || !has_name(e, next) {
        Seq::empty()
    } else {
        let i = slot(e, next);
        let step = e[i].1.spec_resume(msg);
        match step.1 {
            Pause::Done(v) => seq![(next, msg)],
            Pause::Yield(n, m) => seq![(next, msg)] + resumes(
                e.update(i, (next, step.0)),
                n,
                m,
                (fuel - 1) as nat,
            ),
        }
    }
}

/// The entries once every coroutine has been set up.
pub open spec fn initialized<I: TaskName, T, C: Coroutine<I, T>>(e: Seq<(I, C)>) -> Seq<(I, C)> {
    e.map_values(|p: (I, C)| (p.0, p.1.spec_initialize(names_of(e))))
}

/// Whether the run from `start` with `msg` over entries `e` ends: some task
/// finishes it, or it reaches a name that is not registered.
pub open spec fn terminates<I: TaskName, T, C: Coroutine<I, T>>(e: Seq<(I, C)>, start: I, msg: T) -> bool {
    exists|f: nat| (#[trigger] outcome::<I, T, C>(initialized::<I, T, C>(e), start, msg, f)).is_some()
}

/// A number of resumes within which the run ends (meaningful when it ends).
pub open spec fn enough_fuel<I: TaskName, T, C: Coroutine<I, T>>(e: Seq<(I, C)>, start: I, msg: T) -> nat {
    choose|f: nat| (#[trigger] outcome::<I, T, C>(initialized::<I, T, C>(e), start, msg, f)).is_some()
}

/// The result of the run from `start` with `msg` over entries `e`.
pub open spec fn run_result<I: TaskName, T, C: Coroutine<I, T>>(e: Seq<(I, C)>, start: I, msg: T) -> Result<
    T,
    RunError<I>,
> {
    outcome::<I, T, C>(initialized::<I, T, C>(e), start, msg, enough_fuel::<I, T, C>(e, start, msg)).unwrap()
}

/// More fuel than a run needs changes neither its result nor its resumes.
pub proof fn lemma_outcome_fuel<I: TaskName, T, C: Coroutine<I, T>>(
    e: Seq<(I, C)>,
    next: I,
    msg: T,
    f1: nat,
    f2: nat,
)
    requires
        outcome(e, next, msg, f1).is_some(),
        f1 <= f2,
    ensures
        outcome(e, next, msg, f2) == outcome(e, next, msg, f1),
        resumes(e, next, msg, f2) == resumes(e, next, msg, f1),
    decreases f1,
{
    if has_name(e, next) {
        let i = slot(e, next);
        let step = e[i].1.spec_resume(msg);
        match step.1 {
            Pause::Done(v) => {},
            Pause::Yield(n, m) => {
                lemma_outcome_fuel(e.update(i, (next, step.0)), n, m, (f1 - 1) as nat, (f2 - 1) as nat);
            },
        }
    }
}

/// A run is deterministic: any two numbers of resumes within which it ends
/// give the same final value and the same sequence of resumed tasks and
/// messages.
pub proof fn lemma_run_deterministic<I: TaskName, T, C: Coroutine<I, T>>(
    e: Seq<(I, C)>,
    next: I,
    msg: T,
    f1: nat,
    f2: nat,
)
    requires
        outcome(e, next, msg, f1).is_some(),
        outcome(e, next, msg, f2).is_some(),
    ensures
        outcome(e, next, msg, f1) == outcome(e, next, msg, f2),
        resumes(e, next, msg, f1) == resumes(e, next, msg, f2),
{
    if f1 <= f2 {
        lemma_outcome_fuel(e, next, msg, f1, f2);
    } else {
        lemma_outcome_fuel(e, next, msg, f2, f1);
    }
}

proof fn lemma_slot_unique<I: TaskName, C>(e: Seq<(I, C)>, n: I, i: int)
    requires
        names_sorted(names_of(e)),
        0 <= i < e.len(),
        e[i].0 == n,
    ensures
        has_name(e, n),
        slot(e, n) == i,
{
    assert(names_of(e)[i] == e[i].0);
    let j = slot(e, n);
    assert(names_of(e)[j] == e[j].0);
    if j < i {
        assert(names_of(e)[j].rank() < names_of(e)[i].rank());
    } else if i < j {
        assert(names_of(e)[i].rank() < names_of(e)[j].rank());
    }
}

proof fn lemma_position_unique<I: TaskName>(s: Seq<I>, n: I, p: int)
    requires
        is_position(s, n, p),
    ensures
        position(s, n) == p,
{
    let q = position(s, n);
    if q < p {
        assert(s[q].rank() < n.rank());
    } else if p < q {
        assert(s[p].rank() < n.rank());
    }
}

proof fn lemma_position_exists<I: TaskName>(s: Seq<I>, n: I)
    requires
        names_sorted(s),
    ensures
        is_position(s, n, position(s, n)),
    decreases s.len(),
{
    if s.len() == 0 {
        assert(is_position(s, n, 0));
    } else {
        let t = s.drop_last();
        assert(names_sorted(t)) by {
            assert forall|i: int, j: int| 0 <= i < j < t.len() implies (#[trigger] t[i]).rank() < (#[trigger] t[j]).rank() by {
                assert(t[i] == s[i] && t[j] == s[j]);
            }
        }
        lemma_position_exists(t, n);
        let q = position(t, n);
        if q == t.len() && s.last().rank() < n.rank() {
            assert forall|k: int| 0 <= k < s.len() implies (#[trigger] s[k]).rank() < n.rank() by {
                if k < t.len() {
                    assert(t[k] == s[k]);
                }
            }
            assert(is_position(s, n, s.len() as int));
        } else if q == t.len() {
            assert forall|k: int| 0 <= k < q implies (#[trigger] s[k]).rank() < n.rank() by {
                assert(t[k] == s[k]);
            }
            assert(is_position(s, n, q));
        } else {
            assert forall|k: int| q <= k < s.len() implies (#[trigger] s[k]).rank() >= n.rank() by {
                if k == s.len() - 1 && k != q {
                    assert(s[q].rank() < s[k].rank());
                    assert(t[q] == s[q]);
                } else {
                    assert(t[k] == s[k]);
                }
            }
            assert forall|k: int| 0 <= k < q implies (#[trigger] s[k]).rank() < n.rank() by {
                assert(t[k] == s[k]);
            }
            assert(is_position(s, n, q));
        }
    }
}

/// Registering keeps the names sorted; afterwards the name leads to the new
/// coroutine and every other name to what it led to before.
pub proof fn lemma_register<I: TaskName, C>(e: Seq<(I, C)>, n: I, c: C, m: I)
    requires
        names_sorted(names_of(e)),
    ensures
        names_sorted(names_of(register(e, n, c))),
        names_of(register(e, n, c)).to_set() == names_of(e).to_set().insert(n),
        lookup(register(e, n, c), n) == Some(c),
        m != n ==> lookup(register(e, n, c), m) == lookup(e, m),
{
    let r = register(e, n, c);
    if has_name(e, n) {
        let i = slot(e, n);
        lemma_slot_unique(e, n, i);
        assert(names_of(r) =~= names_of(e));
        lemma_slot_unique(r, n, i);
        assert(names_of(e)[i] == n);
        assert(names_of(e).to_set().insert(n) =~= names_of(e).to_set());
        if m != n && has_name(e, m) {
            let j = slot(e, m);
            lemma_slot_unique(e, m, j);
            lemma_slot_unique(r, m, j);
        }
        if m != n && has_name(r, m) {
            let j = slot(r, m);
            assert(e[j].0 == m);
        }
    } else {
        let s = names_of(e);
        lemma_position_exists(s, n);
        let p = position(s, n);
        assert(names_of(r) =~= s.insert(p, n));
        assert forall|k: int| p <= k < s.len() implies (#[trigger] s[k]).rank() > n.rank() by {
            if s[k].rank() == n.rank() {
                I::lemma_rank_injective(&s[k], &n);
                assert(e[k].0 == n);
            }
        }
        assert forall|i: int, j: int| 0 <= i < j < names_of(r).len()
            implies (#[trigger] names_of(r)[i]).rank() < (#[trigger] names_of(r)[j]).rank() by {
            if j < p {
                assert(s[i].rank() < s[j].rank());
            } else if j == p {
            } else if i < p {
                assert(s[j - 1].rank() > n.rank());
            } else if i == p {
                assert(s[j - 1].rank() > n.rank());
            } else {
                assert(s[i - 1].rank() < s[j - 1].rank());
            }
        }
        assert(names_of(r).to_set() =~= s.to_set().insert(n)) by {
            assert forall|x: I| #[trigger] s.insert(p, n).contains(x) <==> s.to_set().insert(n).contains(x) by {
                if x == n {
                    assert(s.insert(p, n)[p] == n);
                }
                if s.contains(x) {
                    let k = choose|k: int| 0 <= k < s.len() && s[k] == x;
                    if k < p {
                        assert(s.insert(p, n)[k] == x);
                    } else {
                        assert(s.insert(p, n)[k + 1] == x);
                    }
                }
                if s.insert(p, n).contains(x) {
                    let k = choose|k: int| 0 <= k < s.len() + 1 && s.insert(p, n)[k] == x;
                    if k < p {
                        assert(s[k] == x);
                    } else if k > p {
                        assert(s[k - 1] == x);
                    }
                }
            }
        }
        assert(r[p] == (n, c));
        lemma_slot_unique(r, n, p);
        if m != n && has_name(e, m) {
            let j = slot(e, m);
            lemma_slot_unique(e, m, j);
            if j < p {
                assert(r[j] == e[j]);
                lemma_slot_unique(r, m, j);
            } else {
                assert(r[j + 1] == e[j]);
                lemma_slot_unique(r, m, j + 1);
            }
        }
        if m != n && has_name(r, m) {
            let j = slot(r, m);
            if j < p {
                assert(e[j] == r[j]);
            } else {
                assert(e[j - 1] == r[j]);
            }
        }
    }
}

/// After any sequence of registrations, looking a name up gives the
/// coroutine registered last under it, and nothing for a name that was never
/// registered.
pub proof fn lemma_lookup_registered<I: TaskName, C>(regs: Seq<(I, C)>, n: I)
    ensures
        names_sorted(names_of(registered(regs))),
        lookup(registered(regs), n) == last_registered(regs, n),
    decreases regs.len(),
{
    if regs.len() == 0 {
        assert(!has_name(registered(regs), n));
    } else {
        let rest = regs.drop_last();
        lemma_lookup_registered(rest, n);
        lemma_register(registered(rest), regs.last().0, regs.last().1, n);
    }
}

/// Registering the same name again makes no second entry: after any
/// sequence of registrations there is exactly one entry for each distinct
/// name registered.
pub proof fn lemma_registered_size<I: TaskName, C>(regs: Seq<(I, C)>)
    ensures
        names_of(registered(regs)).to_set() == names_of(regs).to_set(),
        registered(regs).len() == names_of(regs).to_set().len(),
    decreases regs.len(),
{
    if regs.len() == 0 {
        assert(names_of(regs).to_set() =~= Set::<I>::empty());
        assert(names_of(registered(regs)).to_set() =~= Set::<I>::empty());
    } else {
        let rest = regs.drop_last();
        lemma_registered_size(rest);
        lemma_lookup_registered(rest, regs.last().0);
        lemma_register(registered(rest), regs.last().0, regs.last().1, regs.last().0);
        assert(names_of(regs) =~= names_of(rest).push(regs.last().0));
        assert(names_of(regs).to_set() =~= names_of(rest).to_set().insert(regs.last().0)) by {
            assert forall|x: I| #[trigger] names_of(regs).contains(x) <==> names_of(rest).to_set().insert(regs.last().0).contains(x) by {
                if x == regs.last().0 {
                    assert(names_of(regs)[regs.len() - 1] == x);
                }
                if names_of(regs).contains(x) {
                    let k = choose|k: int| 0 <= k < names_of(regs).len() && names_of(regs)[k] == x;
                    if k < rest.len() {
                        assert(names_of(rest)[k] == names_of(regs)[k]);
                    }
                }
                if names_of(rest).contains(x) {
                    let k = choose|k: int| 0 <= k < names_of(rest).len() && names_of(rest)[k] == x;
                    assert(names_of(regs)[k] == x);
                }
            }
        }
        lemma_lookup_registered(regs, regs.last().0);
        let names = names_of(registered(regs));
        assert(names.no_duplicates()) by {
            assert forall|i: int, j: int| 0 <= i < names.len() && 0 <= j < names.len() && i != j
                implies names[i] != names[j] by {
                if i < j {
                    assert(names[i].rank() < names[j].rank());
                } else {
                    assert(names[j].rank() < names[i].rank());
                }
            }
        }
        names.unique_seq_to_set();
    }
}

/// The registered names, in order, as coroutines see them while they are set up.
pub struct Directory<I> {
    names: Vec<I>,
}

impl<I> View for Directory<I> {
    type V = Seq<I>;

    closed spec fn view(&self) -> Seq<I> {
        self.names@
    }
}

impl<I: TaskName> Directory<I> {
    /// The names are kept in strictly increasing order.
    pub open spec fn wf(&self) -> bool {
        names_sorted(self@)
    }

    /// Binary search for `name`: `Ok` with its index, or `Err` with the
    /// index where it belongs.
    fn search(&self, name: &I) -> (r: Result<usize, usize>)
        requires
            self.wf(),
        ensures
            match r {
                Ok(i) => i < self@.len() && self@[i as int] == *name,
                Err(p) => is_position(self@, *name, p as int) && !self@.contains(*name)
                    && forall|k: int| p <= k < self@.len() ==> (#[trigger] self@[k]).rank() > name.rank(),
            },
    {
        let mut lo: usize = 0;
        let mut hi: usize = self.names.len();
        while lo < hi
            invariant
                self.wf(),
                lo <= hi <= self@.len(),
                forall|k: int| 0 <= k < lo ==> (#[trigger] self@[k]).rank() < name.rank(),
                forall|k: int| hi <= k < self@.len() ==> (#[trigger] self@[k]).rank() > name.rank(),
            decreases hi - lo,
        {
            let mid: usize = lo + (hi - lo) / 2;
            match self.names[mid].compare(name) {
                Ordering::Less => {
                    assert forall|k: int| 0 <= k < mid + 1 implies (#[trigger] self@[k]).rank() < name.rank() by {
                        if k < mid {
                            assert(self@[k].rank() < self@[mid as int].rank());
                        }
                    }
                    lo = mid + 1;
                },
                Ordering::Equal => {
                    proof {
                        I::lemma_rank_injective(&self@[mid as int], name);
                    }
                    return Ok(mid);
                },
                Ordering::Greater => {
                    assert forall|k: int| mid <= k < self@.len() implies (#[trigger] self@[k]).rank() > name.rank() by {
                        if k > mid {
                            assert(self@[mid as int].rank() < self@[k].rank());
                        }
                    }
                    hi = mid;
                },
            }
        }
        proof {
            if self@.contains(*name) {
                let k = choose|k: int| 0 <= k < self@.len() && self@[k] == *name;
                assert(self@[k].rank() == name.rank());
            }
        }
        Err(lo)
    }

    /// The index under which `name` is registered, or `None` when it is not.
    pub fn id_for(&self, name: &I) -> (r: Option<usize>)
        requires
            self.wf(),
        ensures
            match r {
                Some(i) => i < self@.len() && self@[i as int] == *name,
                None => !self@.contains(*name),
            },
    {
        match self.search(name) {
            Ok(i) => Some(i),
            Err(_) => None,
        }
    }

    /// The number of registered names.
    pub fn len(&self) -> (r: usize)
        ensures
            r == self@.len(),
    {
        self.names.len()
    }
}

/// A cooperative task: set up once, then resumed any number of times.
///
/// `spec_initialize` and `spec_resume` state what the two steps do, as
/// functions of the coroutine's own state and its input; an implementation
/// proves its steps against them. By default setup leaves the state as it is,
/// and what a resume does is left unstated.
pub trait Coroutine<I: TaskName, T>: Sized {
    /// The state after the one-time setup, given the registered names.
    open spec fn spec_initialize(self, names: Seq<I>) -> Self {
        self
    }

    /// The state after resuming with `msg`, and what the step hands back.
    closed spec fn spec_resume(self, msg: T) -> (Self, Pause<I, T>) {
        vstd::pervasive::arbitrary()
    }

    /// The one-time setup, before any task is resumed. `names` lets the
    /// coroutine resolve the names of its peers.
    fn initialize(&mut self, names: &Directory<I>)
        requires
            names.wf(),
        ensures
            *final(self) == old(self).spec_initialize(names@),
    ;

    /// Runs the coroutine with `msg` until it yields or finishes.
    fn resume(&mut self, msg: T) -> (r: Pause<I, T>)
        ensures
            (*final(self), r) == old(self).spec_resume(msg),
    ;
}

/// A builder of cooperative tasks: named coroutines kept in the order of
/// their names.
pub struct CoTasking<I, C> {
    names: Directory<I>,
    coros: Vec<C>,
}

impl<I, C> View for CoTasking<I, C> {
    type V = Seq<(I, C)>;

    closed spec fn view(&self) -> Seq<(I, C)> {
        Seq::new(self.coros@.len(), |i: int| (self.names@[i], self.coros@[i]))
    }
}

impl<I: TaskName, C> CoTasking<I, C> {
    /// The entries are sorted by name, one coroutine for each name.
    pub closed spec fn wf(&self) -> bool {
        &&& self.names.wf()
        &&& self.names@.len() == self.coros@.len()
    }

    proof fn lemma_names(&self)
        requires
            self.wf(),
        ensures
            names_of(self@) == self.names@,
            names_sorted(names_of(self@)),
    {
        assert(names_of(self@) =~= self.names@);
    }

    /// An empty builder.
    pub fn new() -> (r: Self)
        ensures
            r.wf(),
            r@ == Seq::<(I, C)>::empty(),
    {
        let r = CoTasking { names: Directory { names: Vec::new() }, coros: Vec::new() };
        assert(r@ =~= Seq::<(I, C)>::empty());
        r
    }

    /// Registers `coro` under `name`. A name registered before keeps its
    /// place and gets the new coroutine.
    pub fn task(self, name: I, coro: C) -> (r: Self)
        requires
            self.wf(),
        ensures
            r.wf(),
            r@ == register(self@, name, coro),
    {
        let mut this = self;
        proof {
            this.lemma_names();
        }
        let ghost e = this@;
        match this.names.search(&name) {
            Ok(i) => {
                proof {
                    lemma_slot_unique(e, name, i as int);
                }
                this.coros[i] = coro;
                assert(this@ =~= e.update(i as int, (name, coro)));
            },
            Err(p) => {
                proof {
                    lemma_position_unique(names_of(e), name, p as int);
                    if has_name(e, name) {
                        let k = choose|k: int| 0 <= k < e.len() && (#[trigger] e[k]).0 == name;
                        assert(this.names@[k] == name);
                    }
                }
                let ghost old_names = this.names@;
                this.names.names.insert(p, name);
                this.coros.insert(p, coro);
                assert(this@ =~= e.insert(p as int, (name, coro)));
                assert forall|i: int, j: int| 0 <= i < j < this.names@.len()
                    implies (#[trigger] this.names@[i]).rank() < (#[trigger] this.names@[j]).rank() by {
                    if j < p {
                        assert(old_names[i].rank() < old_names[j].rank());
                    } else if j == p {
                    } else if i < p {
                        assert(old_names[j - 1].rank() > name.rank());
                    } else if i == p {
                        assert(old_names[j - 1].rank() > name.rank());
                    } else {
                        assert(old_names[i - 1].rank() < old_names[j - 1].rank());
                    }
                }
            },
        }
        this
    }

    /// Sets every coroutine up, in the order of their names, then runs from
    /// task `start` with message `msg` until a task finishes the run. Fails,
    /// before anything is set up, when `start` is not registered, and when a
    /// task hands control to a name that is not registered.
    ///
    /// The run ends when its coroutines finish it within some number of
    /// resumes, which `terminates` states; a run in which no task ever
    /// finishes, and every hand-off reaches a registered task, never ends.
    pub fn run<T>(self, start: I, msg: T) -> (r: Result<T, RunError<I>>)
        where
            C: Coroutine<I, T>,
        requires
            self.wf(),
            terminates::<I, T, C>(self@, start, msg),
        ensures
            r == run_result::<I, T, C>(self@, start, msg),
            !has_name(self@, start) ==> r == Err::<T, RunError<I>>(RunError::UnknownTask(start)),
    {
        let ghost e = self@;
        proof {
            self.lemma_names();
        }
        let CoTasking { names, coros } = self;
        let mut coros = coros;
        match names.search(&start) {
            Ok(_) => {},
            Err(_) => {
                proof {
                    if has_name(e, start) {
                        let k = choose|k: int| 0 <= k < e.len() && (#[trigger] e[k]).0 == start;
                        assert(names@[k] == start);
                    }
                    let f = enough_fuel::<I, T, C>(e, start, msg);
                    assert(names_of(initialized::<I, T, C>(e)) =~= names_of(e));
                    assert(!has_name(initialized::<I, T, C>(e), start)) by {
                        if has_name(initialized::<I, T, C>(e), start) {
                            let k = choose|k: int| 0 <= k < e.len() && (#[trigger] initialized::<I, T, C>(e)[k]).0 == start;
                            assert(names_of(initialized::<I, T, C>(e))[k] == start);
                        }
                    }
                }
                return Err(RunError::UnknownTask(start));
            },
        }
        let ghost first = coros@;
        let n: usize = coros.len();
        let mut i: usize = 0;
        while i < n
            invariant
                n == coros@.len(),
                n == first.len(),
                names@.len() == n,
                i <= n,
                names.wf(),
                names_of(e) == names@,
                forall|k: int| 0 <= k < i ==> coros@[k] == (#[trigger] first[k]).spec_initialize(names@),
                forall|k: int| i <= k < n ==> coros@[k] == first[k],
            decreases n - i,
        {
            coros[i].initialize(&names);
            i = i + 1;
        }
        let scheduler = Scheduler { names, coros, next: start, message: msg };
        assert(scheduler.entries() =~= initialized::<I, T, C>(e));
        let r = scheduler.run();
        proof {
            let f = choose|f: nat| #[trigger] outcome(initialized::<I, T, C>(e), start, msg, f) == Some(r);
            lemma_run_deterministic(initialized::<I, T, C>(e), start, msg, f, enough_fuel::<I, T, C>(e, start, msg));
        }
        r
    }

    /// The number of registered tasks.
    pub fn len(&self) -> (r: usize)
        requires
            self.wf(),
        ensures
            r == self@.len(),
    {
        self.coros.len()
    }

    /// The index under which `name` is registered, or `None` when it is not.
    pub fn id_for(&self, name: &I) -> (r: Option<usize>)
        requires
            self.wf(),
        ensures
            match r {
                Some(i) => i < self@.len() && self@[i as int].0 == *name,
                None => !has_name(self@, *name),
            },
    {
        proof {
            self.lemma_names();
        }
        let r = self.names.id_for(name);
        proof {
            if has_name(self@, *name) {
                let k = choose|k: int| 0 <= k < self@.len() && (#[trigger] self@[k]).0 == *name;
                assert(self.names@[k] == *name);
            }
        }
        r
    }

    /// The coroutine registered under `name`, or `None` when there is none.
    pub fn lookup(&self, name: &I) -> (r: Option<&C>)
        requires
            self.wf(),
        ensures
            match r {
                Some(c) => lookup(self@, *name) == Some(*c),
                None => lookup(self@, *name).is_none(),
            },
    {
        match self.id_for(name) {
            Some(i) => {
                proof {
                    self.lemma_names();
                    lemma_slot_unique(self@, *name, i as int);
                }
                Some(&self.coros[i])
            },
            None => None,
        }
    }
}

/// A run in progress: the tasks, the name of the one due next and the message
/// it will be handed.
struct Scheduler<I, C, T> {
    names: Directory<I>,
    coros: Vec<C>,
    next: I,
    message: T,
}

impl<I: TaskName, C: Coroutine<I, T>, T> Scheduler<I, C, T> {
    spec fn entries(&self) -> Seq<(I, C)> {
        Seq::new(self.coros@.len(), |i: int| (self.names@[i], self.coros@[i]))
    }

    spec fn wf(&self) -> bool {
        &&& self.names.wf()
        &&& self.names@.len() == self.coros@.len()
    }

    /// The index of the task due next, or `None` when its name is not
    /// registered.
    fn search(&self) -> (r: Option<usize>)
        requires
            self.wf(),
        ensures
            match r {
                Some(i) => has_name(self.entries(), self.next) && i == slot(self.entries(), self.next),
                None => !has_name(self.entries(), self.next),
            },
    {
        let e = Ghost(self.entries());
        assert(names_of(e@) =~= self.names@);
        match self.names.search(&self.next) {
            Ok(i) => {
                proof {
                    lemma_slot_unique(e@, self.next, i as int);
                }
                Some(i)
            },
            Err(_) => {
                proof {
                    if has_name(e@, self.next) {
                        let k = choose|k: int| 0 <= k < e@.len() && (#[trigger] e@[k]).0 == self.next;
                        assert(self.names@[k] == self.next);
                    }
                }
                None
            },
        }
    }

    /// Resumes the due task with the pending message, again and again, until
    /// a task finishes the run or hands control to an unknown name.
    fn run(self) -> (r: Result<T, RunError<I>>)
        requires
            self.wf(),
            exists|f: nat| (#[trigger] outcome(self.entries(), self.next, self.message, f)).is_some(),
        ensures
            exists|f: nat| #[trigger] outcome(self.entries(), self.next, self.message, f) == Some(r),
    {
        let ghost f0 = choose|f: nat| (#[trigger] outcome(self.entries(), self.next, self.message, f)).is_some();
        let ghost e0 = self.entries();
        let ghost n0 = self.next;
        let ghost m0 = self.message;
        let ghost goal = outcome(e0, n0, m0, f0);
        let ghost mut fuel: nat = f0;
        let mut this = self;
        loop
            invariant
                this.wf(),
                outcome(this.entries(), this.next, this.message, fuel) == goal,
                goal == outcome(e0, n0, m0, f0),
                e0 == self.entries(),
                n0 == self.next,
                m0 == self.message,
                goal.is_some(),
            decreases fuel,
        {
            let ghost e = this.entries();
            match this.search() {
                None => {
                    assert(fuel > 0);
                    assert(outcome(this.entries(), this.next, this.message, fuel) == Some(
                        Err::<T, RunError<I>>(RunError::UnknownTask(this.next)),
                    ));
                    let Scheduler { names, coros, next, message } = this;
                    assert(outcome(e0, n0, m0, f0) == Some(Err::<T, RunError<I>>(RunError::UnknownTask(next))));
                    return Err(RunError::UnknownTask(next));
                },
                Some(i) => {
                    let Scheduler { names, coros, next, message } = this;
                    let mut coros = coros;
                    let p = coros[i].resume(message);
                    match p {
                        Pause::Done(v) => {
                            assert(outcome(e0, n0, m0, f0) == Some(Ok::<T, RunError<I>>(v)));
                            return Ok(v);
                        },
                        Pause::Yield(n, m) => {
                            this = Scheduler { names, coros, next: n, message: m };
                            assert(this.entries() =~= e.update(i as int, (e[i as int].0, this.coros@[i as int])));
                            proof {
                                fuel = (fuel - 1) as nat;
                            }
                        },
                    }
                },
            }
        }
    }
}

} // verus!
