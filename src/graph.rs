//! The graph: an arena of nodes, evaluated on demand and cached per node.
use vstd::prelude::*;

use crate::cache::Cache;
use crate::node::{reads, Args, Dependencies, NodeKind};

verus! {

/// What the evaluator returns for `op` applied to `args`.
pub open spec fn apply<T, O, F: Fn(O, Args<T>) -> T>(eval: F, op: O, args: Args<T>) -> T {
    choose|r: T| eval.ensures((op, args), r)
}

/// The evaluator accepts every operation on every operands, and returns one
/// value for each pair of them.
pub open spec fn sound_evaluator<T, O, F: Fn(O, Args<T>) -> T>(eval: F) -> bool {
    &&& forall|op: O, args: Args<T>| #[trigger] eval.requires((op, args))
    &&& forall|op: O, args: Args<T>, r1: T, r2: T|
        #![trigger eval.ensures((op, args), r1), eval.ensures((op, args), r2)]
        eval.ensures((op, args), r1) && eval.ensures((op, args), r2) ==> r1 == r2
}

/// The value of node `i`: an input's value, or the operation applied to the
/// values of the nodes it reads.
pub open spec fn value_of<T, O, F: Fn(O, Args<T>) -> T>(
    kinds: Seq<NodeKind<T, O>>,
    eval: F,
    i: int,
) -> T
    decreases i,
{
    if 0 <= i < kinds.len() {
        match kinds[i] {
            NodeKind::Input(v) => v,
            NodeKind::Unary(op, x) => {
                if x < i {
                    apply(eval, op, Args::One(value_of(kinds, eval, x as int)))
                } else {
                    arbitrary()
                }
            },
            NodeKind::Binary(op, x, y) => {
                if x < i && y < i {
                    apply(
                        eval,
                        op,
                        Args::Two(value_of(kinds, eval, x as int), value_of(kinds, eval, y as int)),
                    )
                } else {
                    arbitrary()
                }
            },
        }
    } else {
        arbitrary()
    }
}

/// Whether the evaluator has been seen to return the value of node `j` for
/// its operation on the values of its operands (always, for an input).
pub open spec fn evaluated<T, O, F: Fn(O, Args<T>) -> T>(
    kinds: Seq<NodeKind<T, O>>,
    eval: F,
    j: int,
) -> bool {
    match kinds[j] {
        NodeKind::Input(_) => true,
        NodeKind::Unary(op, x) => eval.ensures(
            (op, Args::One(value_of(kinds, eval, x as int))),
            value_of(kinds, eval, j),
        ),
        NodeKind::Binary(op, x, y) => eval.ensures(
            (op, Args::Two(value_of(kinds, eval, x as int), value_of(kinds, eval, y as int))),
            value_of(kinds, eval, j),
        ),
    }
}

/// Whether node `j` is node `i` or reads it, directly or through other nodes.
pub open spec fn depends_on<T, O>(kinds: Seq<NodeKind<T, O>>, j: int, i: int) -> bool
    decreases j,
{
    if j == i {
        true
    } else if 0 <= j < kinds.len() {
        match kinds[j] {
            NodeKind::Input(_) => false,
            NodeKind::Unary(_, x) => x < j && depends_on(kinds, x as int, i),
            NodeKind::Binary(_, x, y) => (x < j && depends_on(kinds, x as int, i)) || (y < j
                && depends_on(kinds, y as int, i)),
        }
    } else {
        false
    }
}

/// Nodes in an arena. A node reads only nodes of smaller index, so the graph
/// has no cycle; each node lists the nodes that read it, to notify them when
/// its value changes.
pub struct Graph<T, O, F> {
    kinds: Vec<NodeKind<T, O>>,
    caches: Vec<Cache<T>>,
    deps: Vec<Dependencies>,
    eval: F,
}

impl<T: Copy, O: Copy, F: Fn(O, Args<T>) -> T> Graph<T, O, F> {
    /// What each node is.
    pub closed spec fn kinds(&self) -> Seq<NodeKind<T, O>> {
        self.kinds@
    }

    /// Each node's cache.
    pub closed spec fn caches(&self) -> Seq<Option<T>> {
        self.caches@.map_values(|c: Cache<T>| c@)
    }

    /// Each node's list of dependents.
    pub closed spec fn dependents(&self) -> Seq<Seq<usize>> {
        self.deps@.map_values(|d: Dependencies| d@)
    }

    /// The evaluator that applies operations.
    pub closed spec fn evaluator(&self) -> F {
        self.eval
    }

    /// The value node `j` holds right now, if any: an input's value, or what
    /// an operation node has cached.
    pub open spec fn current(&self, j: int) -> Option<T> {
        match self.kinds()[j] {
            NodeKind::Input(v) => Some(v),
            _ => self.caches()[j],
        }
    }

    /// The value of node `j` for the current inputs.
    pub open spec fn value(&self, j: int) -> T {
        value_of(self.kinds(), self.evaluator(), j)
    }

    /// The shape of the arena: operands come first, each dependents list
    /// names exactly readers of its node and names all of them, and inputs
    /// keep no cache.
    pub open spec fn structured(&self) -> bool {
        let n = self.kinds().len();
        &&& n <= usize::MAX
        &&& self.caches().len() == n
        &&& self.dependents().len() == n
        &&& sound_evaluator(self.evaluator())
        &&& forall|j: int, x: int|
            0 <= j < n && #[trigger] reads(self.kinds()[j], x) ==> 0 <= x < j
        &&& forall|x: int, l: int|
            0 <= x < n && 0 <= l < self.dependents()[x].len() ==> {
                let e = #[trigger] self.dependents()[x][l];
                &&& x < e < n
                &&& reads(self.kinds()[e as int], x)
            }
        &&& forall|j: int, x: int|
            0 <= j < n && #[trigger] reads(self.kinds()[j], x) ==> self.dependents()[x].contains(
                j as usize,
            )
        &&& forall|j: int| 0 <= j < n && self.kinds()[j] is Input ==> #[trigger] self.caches()[j] is None
    }

    /// Cached values are never stale: a node that holds a value holds its
    /// true value, which the evaluator returned for it, and the nodes it reads
    /// hold their values too.
    pub open spec fn coherent(&self) -> bool {
        let n = self.kinds().len();
        &&& forall|j: int|
            0 <= j < n && #[trigger] self.current(j) is Some ==> self.current(j)->Some_0
                == self.value(j) && evaluated(self.kinds(), self.evaluator(), j)
        &&& forall|j: int, x: int|
            0 <= j < n && self.current(j) is Some && #[trigger] reads(self.kinds()[j], x)
                ==> self.current(x) is Some
    }

    pub open spec fn wf(&self) -> bool {
        self.structured() && self.coherent()
    }

    /// An empty graph whose operations are applied by `eval`.
    pub fn new(eval: F) -> (r: Self)
        requires
            sound_evaluator(eval),
        ensures
            r.wf(),
            r.kinds() == Seq::<NodeKind<T, O>>::empty(),
            r.evaluator() == eval,
    {
        let r = Graph { kinds: Vec::new(), caches: Vec::new(), deps: Vec::new(), eval };
        assert(r.caches() =~= Seq::<Option<T>>::empty());
        assert(r.dependents() =~= Seq::<Seq<usize>>::empty());
        r
    }

    /// The number of nodes.
    pub fn len(&self) -> (r: usize)
        ensures
            r == self.kinds().len(),
    {
        self.kinds.len()
    }

    /// Adds an input node holding `v`; returns its index.
    pub fn add_input(&mut self, v: T) -> (id: usize)
        requires
            old(self).wf(),
            old(self).kinds().len() < usize::MAX,
        ensures
            final(self).wf(),
            id == old(self).kinds().len(),
            final(self).kinds() == old(self).kinds().push(NodeKind::Input(v)),
            final(self).caches() == old(self).caches().push(None),
            final(self).dependents() == old(self).dependents().push(Seq::<usize>::empty()),
            final(self).evaluator() == old(self).evaluator(),
    {
        let id = self.kinds.len();
        self.kinds.push(NodeKind::Input(v));
        self.caches.push(Cache::new());
        self.deps.push(Dependencies::new());
        proof {
            assert(self.caches() =~= old(self).caches().push(None));
            assert(self.dependents() =~= old(self).dependents().push(Seq::<usize>::empty()));
            self.lemma_pushed_keeps_wf(*old(self));
        }
        id
    }

    /// Adds a node applying `op` to the value of node `x`, and registers it as
    /// a dependent of `x`; returns its index.
    pub fn unary(&mut self, op: O, x: usize) -> (id: usize)
        requires
            old(self).wf(),
            x < old(self).kinds().len(),
            old(self).kinds().len() < usize::MAX,
        ensures
            final(self).wf(),
            id == old(self).kinds().len(),
            final(self).kinds() == old(self).kinds().push(NodeKind::Unary(op, x)),
            final(self).caches() == old(self).caches().push(None),
            final(self).dependents() == old(self).dependents().update(
                x as int,
                old(self).dependents()[x as int].push(id),
            ).push(Seq::<usize>::empty()),
            final(self).evaluator() == old(self).evaluator(),
    {
        let id = self.kinds.len();
        self.kinds.push(NodeKind::Unary(op, x));
        self.caches.push(Cache::new());
        self.deps.push(Dependencies::new());
        self.deps[x].add(id);
        proof {
            assert(self.caches() =~= old(self).caches().push(None));
            assert(self.dependents() =~= old(self).dependents().update(
                x as int,
                old(self).dependents()[x as int].push(id),
            ).push(Seq::<usize>::empty()));
            assert(self.dependents()[x as int][old(self).dependents()[x as int].len() as int] == id);
            self.lemma_pushed_keeps_wf(*old(self));
        }
        id
    }

    /// Adds a node applying `op` to the values of nodes `x` and `y`, and
    /// registers it as a dependent of each (twice of `x` when `x == y`);
    /// returns its index.
    pub fn binary(&mut self, op: O, x: usize, y: usize) -> (id: usize)
        requires
            old(self).wf(),
            x < old(self).kinds().len(),
            y < old(self).kinds().len(),
            old(self).kinds().len() < usize::MAX,
        ensures
            final(self).wf(),
            id == old(self).kinds().len(),
            final(self).kinds() == old(self).kinds().push(NodeKind::Binary(op, x, y)),
            final(self).caches() == old(self).caches().push(None),
            ({
                let d = old(self).dependents().update(
                    x as int,
                    old(self).dependents()[x as int].push(id),
                );
                final(self).dependents() == d.update(y as int, d[y as int].push(id)).push(
                    Seq::<usize>::empty(),
                )
            }),
            final(self).evaluator() == old(self).evaluator(),
    {
        let id = self.kinds.len();
        self.kinds.push(NodeKind::Binary(op, x, y));
        self.caches.push(Cache::new());
        self.deps.push(Dependencies::new());
        self.deps[x].add(id);
        let ghost mid = self.dependents();
        self.deps[y].add(id);
        proof {
            let d = old(self).dependents().update(
                x as int,
                old(self).dependents()[x as int].push(id),
            );
            assert(self.caches() =~= old(self).caches().push(None));
            assert(mid =~= d.push(Seq::<usize>::empty()));
            assert(self.dependents() =~= d.update(y as int, d[y as int].push(id)).push(
                Seq::<usize>::empty(),
            ));
            assert(self.dependents()[y as int][d[y as int].len() as int] == id);
            assert(mid[x as int][old(self).dependents()[x as int].len() as int] == id);
            assert(self.dependents()[x as int].contains(id));
            self.lemma_pushed_keeps_wf(*old(self));
        }
        id
    }

    /// Registers node `d`, which reads node `i`, to be notified when the value
    /// of `i` changes. Construction registers every node already; a second
    /// registration only repeats a notification.
    pub fn add_dependent(&mut self, i: usize, d: usize)
        requires
            old(self).wf(),
            i < old(self).kinds().len(),
            d < old(self).kinds().len(),
            reads(old(self).kinds()[d as int], i as int),
        ensures
            final(self).wf(),
            final(self).kinds() == old(self).kinds(),
            final(self).caches() == old(self).caches(),
            final(self).dependents() == old(self).dependents().update(
                i as int,
                old(self).dependents()[i as int].push(d),
            ),
            final(self).evaluator() == old(self).evaluator(),
    {
        self.deps[i].add(d);
        proof {
            let n = self.kinds().len();
            let before = old(self).dependents()[i as int];
            assert(self.dependents() =~= old(self).dependents().update(i as int, before.push(d)));
            assert forall|x: int, l: int|
                0 <= x < n && 0 <= l < self.dependents()[x].len() implies {
                let e = #[trigger] self.dependents()[x][l];
                &&& x < e < n
                &&& reads(self.kinds()[e as int], x)
            } by {
                if x != i || l < before.len() {
                    assert(self.dependents()[x][l] == old(self).dependents()[x][l]);
                } else {
                    assert(reads(self.kinds()[d as int], i as int));
                }
            }
            assert forall|j: int, x: int|
                0 <= j < n && #[trigger] reads(self.kinds()[j], x) implies self.dependents()[x].contains(
                j as usize,
            ) by {
                assert(old(self).dependents()[x].contains(j as usize));
                let l = choose|l: int|
                    0 <= l < old(self).dependents()[x].len() && old(self).dependents()[x][l]
                        == j as usize;
                assert(self.dependents()[x][l] == j as usize);
            }
            assert(self.caches() == old(self).caches());
            assert(self.structured());
            assert forall|j: int| 0 <= j < n implies #[trigger] self.current(j) == old(self).current(j) by {}
            assert(self.coherent());
        }
    }

    /// A node added at the end, with an empty cache unless it is an input,
    /// registered with the nodes it reads, keeps the graph well formed.
    proof fn lemma_pushed_keeps_wf(&self, before: Self)
        requires
            before.wf(),
            self.kinds().len() == before.kinds().len() + 1,
            self.kinds().len() <= usize::MAX,
            forall|k: int|
                0 <= k < before.kinds().len() ==> #[trigger] self.kinds()[k] == before.kinds()[k],
            self.caches() == before.caches().push(None),
            self.dependents().len() == self.kinds().len(),
            self.dependents()[before.kinds().len() as int] == Seq::<usize>::empty(),
            self.evaluator() == before.evaluator(),
            forall|x: int|
                #[trigger] reads(self.kinds()[before.kinds().len() as int], x) ==> 0 <= x
                    < before.kinds().len() && self.dependents()[x].contains(
                    before.kinds().len() as usize,
                ),
            forall|x: int|
                0 <= x < before.kinds().len() ==> before.dependents()[x].len() <= (
                #[trigger] self.dependents()[x]).len(),
            forall|x: int, l: int|
                0 <= x < before.kinds().len() && 0 <= l < before.dependents()[x].len() ==> (
                #[trigger] self.dependents()[x][l]) == before.dependents()[x][l],
            forall|x: int, l: int|
                0 <= x < before.kinds().len() && before.dependents()[x].len() <= l
                    < self.dependents()[x].len() ==> (#[trigger] self.dependents()[x][l])
                    == before.kinds().len() && reads(self.kinds()[before.kinds().len() as int], x),
        ensures
            self.wf(),
    {
        let n = before.kinds().len() as int;
        let kinds = self.kinds();
        assert forall|j: int| 0 <= j < n implies #[trigger] kinds[j] == before.kinds()[j] by {
            assert(kinds.take(n)[j] == kinds[j]);
        }
        assert forall|j: int| 0 <= j < n implies value_of(kinds, self.evaluator(), j)
            == #[trigger] value_of(before.kinds(), self.evaluator(), j) by {
            lemma_prefix_same(kinds, before.kinds(), self.evaluator(), j);
        }
        assert forall|x: int, l: int|
            0 <= x < n + 1 && 0 <= l < self.dependents()[x].len() implies {
            let e = #[trigger] self.dependents()[x][l];
            &&& x < e < n + 1
            &&& reads(self.kinds()[e as int], x)
        } by {
            if x < n {
                if l < before.dependents()[x].len() {
                    assert(before.dependents()[x][l] < n);
                    assert(self.dependents()[x][l] == before.dependents()[x][l]);
                }
            }
        }
        assert forall|j: int, x: int|
            0 <= j < n + 1 && #[trigger] reads(self.kinds()[j], x) implies self.dependents()[x].contains(
            j as usize,
        ) by {
            if j < n {
                assert(self.kinds()[j] == before.kinds()[j]);
                assert(before.dependents()[x].contains(j as usize));
                let l = choose|l: int|
                    0 <= l < before.dependents()[x].len() && before.dependents()[x][l] == j as usize;
                assert(self.dependents()[x][l] == j as usize);
            }
        }
        assert forall|j: int| 0 <= j < n + 1 && #[trigger] self.current(j) is Some implies self.current(
            j,
        )->Some_0 == self.value(j) && evaluated(kinds, self.evaluator(), j) by {
            if j < n {
                assert(self.current(j) == before.current(j));
                match kinds[j] {
                    NodeKind::Input(_) => {},
                    NodeKind::Unary(_, x) => {
                        assert(reads(before.kinds()[j], x as int));
                    },
                    NodeKind::Binary(_, x, y) => {
                        assert(reads(before.kinds()[j], x as int));
                        assert(reads(before.kinds()[j], y as int));
                    },
                }
            }
        }
        assert forall|j: int, x: int|
            0 <= j < n + 1 && self.current(j) is Some && #[trigger] reads(self.kinds()[j], x)
                implies self.current(x) is Some by {
            if j < n {
                assert(self.current(j) == before.current(j));
                assert(self.current(x) == before.current(x));
            }
        }
    }

    /// Gives input node `i` the value `v`. The nodes that read it, directly or
    /// through others, are notified first and lose their cached values; no
    /// other cache changes.
    pub fn set(&mut self, i: usize, v: T)
        requires
            old(self).wf(),
            i < old(self).kinds().len(),
            old(self).kinds()[i as int] is Input,
        ensures
            final(self).wf(),
            final(self).kinds() == old(self).kinds().update(i as int, NodeKind::Input(v)),
            final(self).dependents() == old(self).dependents(),
            final(self).evaluator() == old(self).evaluator(),
            forall|j: int|
                0 <= j < old(self).kinds().len() ==> #[trigger] final(self).caches()[j] == if depends_on(
                    old(self).kinds(),
                    j,
                    i as int,
                ) {
                    None
                } else {
                    old(self).caches()[j]
                },
    {
        self.invalidate(i);
        let ghost mid = *self;
        self.kinds.set(i, NodeKind::Input(v));
        proof {
            let n = self.kinds().len();
            assert(self.caches() == mid.caches());
            assert forall|j: int, x: int|
                0 <= j < n && #[trigger] reads(self.kinds()[j], x) implies reads(mid.kinds()[j], x) by {
                if j == i {
                    assert(!reads(self.kinds()[j], x));
                }
            }
            assert forall|x: int, l: int|
                0 <= x < n && 0 <= l < self.dependents()[x].len() implies {
                let e = #[trigger] self.dependents()[x][l];
                &&& x < e < n
                &&& reads(self.kinds()[e as int], x)
            } by {
                let e = self.dependents()[x][l];
                assert(reads(mid.kinds()[e as int], x));
                assert(e != i);
            }
            assert forall|j: int| 0 <= j < n && self.kinds()[j] is Input implies #[trigger] self.caches()[j]
                is None by {
                assert(mid.kinds()[j] is Input);
            }
            lemma_set_clears_changed_values(*old(self), *self, i as int, v);
        }
    }

    /// The value of node `i`, computed on demand: a node with a cached value
    /// returns it and changes nothing; one without computes the nodes it reads,
    /// applies its operation and caches the result.
    pub fn compute(&mut self, i: usize) -> (r: T)
        requires
            old(self).wf(),
            i < old(self).kinds().len(),
        ensures
            final(self).wf(),
            r == old(self).value(i as int),
            evaluated(old(self).kinds(), old(self).evaluator(), i as int),
            final(self).current(i as int) == Some(r),
            final(self).kinds() == old(self).kinds(),
            final(self).dependents() == old(self).dependents(),
            final(self).evaluator() == old(self).evaluator(),
            forall|j: int|
                0 <= j < old(self).kinds().len() && (#[trigger] old(self).current(j)) is Some
                    ==> final(self).current(j) == old(self).current(j),
            forall|j: int|
                i < j < old(self).kinds().len() ==> #[trigger] final(self).caches()[j]
                    == old(self).caches()[j],
            old(self).current(i as int) is Some ==> *final(self) == *old(self),
        decreases i,
    {
        match self.kinds[i] {
            NodeKind::Input(v) => v,
            NodeKind::Unary(op, x) => {
                match self.caches[i].get() {
                    Some(v) => v,
                    None => {
                        assert(reads(self.kinds()[i as int], x as int));
                        let a = self.compute(x);
                        let args = Args::One(a);
                        let r = (self.eval)(op, args);
                        proof {
                            lemma_apply(self.eval, op, args, r);
                        }
                        self.store(i, r);
                        r
                    },
                }
            },
            NodeKind::Binary(op, x, y) => {
                match self.caches[i].get() {
                    Some(v) => v,
                    None => {
                        assert(reads(self.kinds()[i as int], x as int));
                        assert(reads(self.kinds()[i as int], y as int));
                        let a = self.compute(x);
                        let b = self.compute(y);
                        let args = Args::Two(a, b);
                        let r = (self.eval)(op, args);
                        proof {
                            lemma_apply(self.eval, op, args, r);
                        }
                        self.store(i, r);
                        r
                    },
                }
            },
        }
    }

    /// Caches `r` as the value of operation node `i`, whose operands all
    /// hold their values.
    fn store(&mut self, i: usize, r: T)
        requires
            old(self).wf(),
            i < old(self).kinds().len(),
            !(old(self).kinds()[i as int] is Input),
            old(self).caches()[i as int] is None,
            r == old(self).value(i as int),
            evaluated(old(self).kinds(), old(self).evaluator(), i as int),
            forall|x: int|
                #[trigger] reads(old(self).kinds()[i as int], x) ==> old(self).current(x) is Some,
        ensures
            final(self).wf(),
            final(self).current(i as int) == Some(r),
            final(self).kinds() == old(self).kinds(),
            final(self).dependents() == old(self).dependents(),
            final(self).evaluator() == old(self).evaluator(),
            forall|j: int|
                0 <= j < old(self).kinds().len() && j != i ==> #[trigger] final(self).caches()[j]
                    == old(self).caches()[j],
    {
        let c = || -> (c: T)
            ensures
                c == r,
            { r };
        self.caches[i].get_or_else(c);
        assert(self.caches() =~= old(self).caches().update(i as int, Some(r)));
        assert forall|j: int|
            0 <= j < self.kinds().len() && j != i implies #[trigger] self.current(j)
            == old(self).current(j) by {}
    }
    /// Clears the cache of node `i` and of every node that reads it, directly
    /// or through other nodes, by notifying its dependents in turn. Every other
    /// cache is left as it was.
    pub fn invalidate(&mut self, i: usize)
        requires
            old(self).structured(),
            i < old(self).kinds().len(),
        ensures
            final(self).structured(),
            final(self).kinds() == old(self).kinds(),
            final(self).dependents() == old(self).dependents(),
            final(self).evaluator() == old(self).evaluator(),
            forall|j: int|
                0 <= j < old(self).kinds().len() ==> #[trigger] final(self).caches()[j] == if depends_on(
                    old(self).kinds(),
                    j,
                    i as int,
                ) {
                    None
                } else {
                    old(self).caches()[j]
                },
            old(self).wf() ==> final(self).wf(),
        decreases old(self).kinds().len() - i, 1int,
    {
        self.caches[i].invalidate();
        proof {
            assert(self.caches() =~= old(self).caches().update(i as int, None));
            assert(self.dependents() =~= old(self).dependents());
        }
        let d = self.deps[i].duplicate();
        d.invalidate(i, self);
        proof {
            let n = self.kinds().len();
            assert forall|j: int| 0 <= j < n implies #[trigger] self.caches()[j] == if depends_on(
                old(self).kinds(),
                j,
                i as int,
            ) {
                None
            } else {
                old(self).caches()[j]
            } by {
                if j == i {
                    assert(depends_on(old(self).kinds(), j, i as int));
                }
            }
            if old(self).wf() {
                Self::lemma_clearing_keeps_coherence(*old(self), *self, i as int);
            }
        }
    }

    /// Emptying the caches of the nodes that depend on `i` leaves no stale value behind.
    proof fn lemma_clearing_keeps_coherence(before: Self, after: Self, i: int)
        requires
            before.wf(),
            after.structured(),
            after.kinds() == before.kinds(),
            after.evaluator() == before.evaluator(),
            0 <= i < before.kinds().len(),
            forall|j: int|
                0 <= j < before.kinds().len() ==> #[trigger] after.caches()[j] == if depends_on(
                    before.kinds(),
                    j,
                    i,
                ) {
                    None
                } else {
                    before.caches()[j]
                },
        ensures
            after.coherent(),
    {
        let n = before.kinds().len();
        assert forall|j: int| 0 <= j < n && #[trigger] after.current(j) is Some implies after.current(
            j,
        )->Some_0 == after.value(j) && evaluated(after.kinds(), after.evaluator(), j) by {
            assert(before.current(j) is Some);
        }
        assert forall|j: int, x: int|
            0 <= j < n && after.current(j) is Some && #[trigger] reads(after.kinds()[j], x)
                implies after.current(x) is Some by {
            assert(before.current(j) is Some);
            assert(0 <= x < j);
            if depends_on(before.kinds(), x, i) {
                assert(depends_on(before.kinds(), j, i));
            }
        }
    }
}

impl Dependencies {
    /// Notifies every node of the list, in order, that node `owner`, which
    /// they all read, has changed: each clears its cache and notifies its own
    /// dependents. Afterwards exactly the nodes that read `owner`, directly
    /// or through others, have empty caches; the rest are as they were.
    pub fn invalidate<T: Copy, O: Copy, F: Fn(O, Args<T>) -> T>(
        &self,
        owner: usize,
        g: &mut Graph<T, O, F>,
    )
        requires
            old(g).structured(),
            owner < old(g).kinds().len(),
            self@ == old(g).dependents()[owner as int],
        ensures
            final(g).structured(),
            final(g).kinds() == old(g).kinds(),
            final(g).dependents() == old(g).dependents(),
            final(g).evaluator() == old(g).evaluator(),
            forall|j: int|
                0 <= j < old(g).kinds().len() ==> #[trigger] final(g).caches()[j] == if depends_on(
                    old(g).kinds(),
                    j,
                    owner as int,
                ) && j != owner {
                    None
                } else {
                    old(g).caches()[j]
                },
        decreases old(g).kinds().len() - owner, 0int,
    {
        let ghost kinds = old(g).kinds();
        let ghost n = kinds.len();
        let mut l: usize = 0;
        while l < self.len()
            invariant
                g.structured(),
                g.kinds() == kinds,
                g.dependents() == old(g).dependents(),
                g.evaluator() == old(g).evaluator(),
                n == old(g).kinds().len(),
                owner < n,
                n == old(g).dependents().len(),
                self@ == old(g).dependents()[owner as int],
                l <= self@.len(),
                forall|j: int|
                    0 <= j < n ==> #[trigger] g.caches()[j] == if in_cone(
                        kinds,
                        j,
                        self@.take(l as int),
                    ) {
                        None
                    } else {
                        old(g).caches()[j]
                    },
            decreases self@.len() - l,
        {
            let e = self.get(l);
            proof {
                assert(g.dependents()[owner as int][l as int] == e);
                assert(owner < e && e < n);
            }
            g.invalidate(e);
            proof {
                let ds = self@.take(l + 1);
                assert(ds.drop_last() =~= self@.take(l as int));
            }
            l = l + 1;
        }
        proof {
            let ds = self@;
            assert(ds.take(l as int) =~= ds);
            assert forall|m: int| 0 <= m < ds.len() implies owner < #[trigger] ds[m] < n && reads(
                kinds[ds[m] as int],
                owner as int,
            ) by {
                assert(old(g).dependents()[owner as int][m] == ds[m]);
            }
            assert forall|j: int| 0 <= j < n implies #[trigger] in_cone(kinds, j, ds) == (depends_on(
                kinds,
                j,
                owner as int,
            ) && j != owner) by {
                if in_cone(kinds, j, ds) {
                    lemma_cone_of_dependents(kinds, j, ds, owner as int);
                }
                if depends_on(kinds, j, owner as int) && j != owner {
                    let e = lemma_first_step(kinds, j, owner as int);
                    assert(old(g).dependents()[owner as int].contains(e as usize));
                    let m = choose|m: int| 0 <= m < ds.len() && ds[m] == e as usize;
                    lemma_in_cone(kinds, j, ds, m);
                }
            }
        }
    }
}

/// Whether node `j` depends on one of the nodes in `ds`.
pub open spec fn in_cone<T, O>(kinds: Seq<NodeKind<T, O>>, j: int, ds: Seq<usize>) -> bool
    decreases ds.len(),
{
    if ds.len() == 0 {
        false
    } else {
        in_cone(kinds, j, ds.drop_last()) || depends_on(kinds, j, ds.last() as int)
    }
}

proof fn lemma_depends_on_order<T, O>(kinds: Seq<NodeKind<T, O>>, j: int, i: int)
    requires
        depends_on(kinds, j, i),
    ensures
        j >= i,
    decreases j,
{
    if j != i {
        match kinds[j] {
            NodeKind::Input(_) => {},
            NodeKind::Unary(_, x) => {
                lemma_depends_on_order(kinds, x as int, i);
            },
            NodeKind::Binary(_, x, y) => {
                if x < j && depends_on(kinds, x as int, i) {
                    lemma_depends_on_order(kinds, x as int, i);
                } else {
                    lemma_depends_on_order(kinds, y as int, i);
                }
            },
        }
    }
}

/// A node that depends on a reader of `i` depends on `i`.
proof fn lemma_depends_on_trans<T, O>(kinds: Seq<NodeKind<T, O>>, j: int, e: int, i: int)
    requires
        0 <= i < e < kinds.len(),
        depends_on(kinds, j, e),
        reads(kinds[e], i),
    ensures
        depends_on(kinds, j, i),
        j != i,
    decreases j,
{
    lemma_depends_on_order(kinds, j, e);
    if j == e {
        assert(depends_on(kinds, i, i));
    } else {
        match kinds[j] {
            NodeKind::Input(_) => {},
            NodeKind::Unary(_, x) => {
                lemma_depends_on_trans(kinds, x as int, e, i);
            },
            NodeKind::Binary(_, x, y) => {
                if x < j && depends_on(kinds, x as int, e) {
                    lemma_depends_on_trans(kinds, x as int, e, i);
                } else {
                    lemma_depends_on_trans(kinds, y as int, e, i);
                }
            },
        }
    }
}

/// A node that depends on `i` without being `i` depends on a node that reads `i`.
proof fn lemma_first_step<T, O>(kinds: Seq<NodeKind<T, O>>, j: int, i: int) -> (e: int)
    requires
        depends_on(kinds, j, i),
        j != i,
    ensures
        i < e <= j,
        0 <= e < kinds.len(),
        reads(kinds[e], i),
        depends_on(kinds, j, e),
    decreases j,
{
    match kinds[j] {
        NodeKind::Input(_) => j,
        NodeKind::Unary(_, x) => {
            if x == i {
                j
            } else {
                let e = lemma_first_step(kinds, x as int, i);
                e
            }
        },
        NodeKind::Binary(_, x, y) => {
            if x < j && depends_on(kinds, x as int, i) {
                if x == i {
                    j
                } else {
                    let e = lemma_first_step(kinds, x as int, i);
                    e
                }
            } else if y == i {
                j
            } else {
                let e = lemma_first_step(kinds, y as int, i);
                e
            }
        },
    }
}

proof fn lemma_cone_of_dependents<T, O>(
    kinds: Seq<NodeKind<T, O>>,
    j: int,
    ds: Seq<usize>,
    owner: int,
)
    requires
        in_cone(kinds, j, ds),
        forall|m: int|
            0 <= m < ds.len() ==> owner < #[trigger] ds[m] < kinds.len() && reads(
                kinds[ds[m] as int],
                owner,
            ),
        0 <= owner,
    ensures
        depends_on(kinds, j, owner),
        j != owner,
    decreases ds.len(),
{
    let last = ds.last() as int;
    if depends_on(kinds, j, last) {
        assert(ds[ds.len() - 1] == ds.last());
        lemma_depends_on_trans(kinds, j, last, owner);
    } else {
        let rest = ds.drop_last();
        assert forall|m: int| 0 <= m < rest.len() implies owner < #[trigger] rest[m] < kinds.len()
            && reads(kinds[rest[m] as int], owner) by {
            assert(rest[m] == ds[m]);
        }
        lemma_cone_of_dependents(kinds, j, rest, owner);
    }
}

proof fn lemma_in_cone<T, O>(kinds: Seq<NodeKind<T, O>>, j: int, ds: Seq<usize>, m: int)
    requires
        0 <= m < ds.len(),
        depends_on(kinds, j, ds[m] as int),
    ensures
        in_cone(kinds, j, ds),
    decreases ds.len(),
{
    if m < ds.len() - 1 {
        assert(ds.drop_last()[m] == ds[m]);
        lemma_in_cone(kinds, j, ds.drop_last(), m);
    }
}

/// Nodes of a prefix have the same value in the whole.
proof fn lemma_prefix_same<T, O, F: Fn(O, Args<T>) -> T>(
    kinds: Seq<NodeKind<T, O>>,
    prefix: Seq<NodeKind<T, O>>,
    eval: F,
    j: int,
)
    requires
        0 <= j < prefix.len() <= kinds.len(),
        forall|k: int| 0 <= k < prefix.len() ==> #[trigger] kinds[k] == prefix[k],
    ensures
        value_of(kinds, eval, j) == value_of(prefix, eval, j),
    decreases j,
{
    match prefix[j] {
        NodeKind::Input(_) => {},
        NodeKind::Unary(_, x) => {
            if x < j {
                lemma_prefix_same(kinds, prefix, eval, x as int);
            }
        },
        NodeKind::Binary(_, x, y) => {
            if x < j {
                lemma_prefix_same(kinds, prefix, eval, x as int);
            }
            if y < j {
                lemma_prefix_same(kinds, prefix, eval, y as int);
            }
        },
    }
}

proof fn lemma_apply<T, O, F: Fn(O, Args<T>) -> T>(eval: F, op: O, args: Args<T>, r: T)
    requires
        sound_evaluator(eval),
        eval.ensures((op, args), r),
    ensures
        apply(eval, op, args) == r,
{
    let c = apply(eval, op, args);
    assert(eval.ensures((op, args), c));
}

/// Giving an input a new value leaves no stale value behind: every node whose
/// value changed has lost its cache, and every value still held is the node's
/// value for the new inputs.
pub proof fn lemma_set_clears_changed_values<T: Copy, O: Copy, F: Fn(O, Args<T>) -> T>(
    before: Graph<T, O, F>,
    after: Graph<T, O, F>,
    i: int,
    v: T,
)
    requires
        before.wf(),
        after.structured(),
        0 <= i < before.kinds().len(),
        before.kinds()[i] is Input,
        after.kinds() == before.kinds().update(i, NodeKind::Input(v)),
        after.evaluator() == before.evaluator(),
        forall|j: int|
            0 <= j < before.kinds().len() ==> #[trigger] after.caches()[j] == if depends_on(
                before.kinds(),
                j,
                i,
            ) {
                None
            } else {
                before.caches()[j]
            },
    ensures
        after.wf(),
        forall|j: int|
            0 <= j < before.kinds().len() && #[trigger] after.value(j) != before.value(j)
                ==> after.current(j) is None || j == i,
{
    let n = before.kinds().len();
    let eval = before.evaluator();
    assert forall|j: int| 0 <= j < n && !depends_on(before.kinds(), j, i) implies #[trigger] after.value(
        j,
    ) == before.value(j) by {
        lemma_other_values_kept(before.kinds(), after.kinds(), eval, i, v, j);
    }
    assert forall|j: int| 0 <= j < n && #[trigger] after.current(j) is Some implies after.current(
        j,
    )->Some_0 == after.value(j) && evaluated(after.kinds(), eval, j) by {
        if j != i && !(after.kinds()[j] is Input) {
            assert(before.current(j) is Some);
            assert(after.kinds()[j] == before.kinds()[j]);
            assert(!depends_on(before.kinds(), j, i));
            match before.kinds()[j] {
                NodeKind::Input(_) => {},
                NodeKind::Unary(_, x) => {
                    assert(reads(before.kinds()[j], x as int));
                    assert(!depends_on(before.kinds(), x as int, i));
                    assert(after.value(x as int) == before.value(x as int));
                },
                NodeKind::Binary(_, x, y) => {
                    assert(reads(before.kinds()[j], x as int));
                    assert(reads(before.kinds()[j], y as int));
                    assert(!depends_on(before.kinds(), x as int, i));
                    assert(!depends_on(before.kinds(), y as int, i));
                    assert(after.value(x as int) == before.value(x as int));
                    assert(after.value(y as int) == before.value(y as int));
                },
            }
        }
        if j != i && after.kinds()[j] is Input {
            assert(before.kinds()[j] == after.kinds()[j]);
        }
    }
    assert forall|j: int, x: int|
        0 <= j < n && after.current(j) is Some && #[trigger] reads(after.kinds()[j], x)
            implies after.current(x) is Some by {
        assert(j != i);
        assert(reads(before.kinds()[j], x));
        assert(!depends_on(before.kinds(), j, i));
        assert(before.current(j) is Some);
        assert(0 <= x < j);
        assert(!depends_on(before.kinds(), x, i));
        assert(before.current(x) is Some);
        if x != i {
            assert(after.kinds()[x] == before.kinds()[x]);
        }
    }
    assert forall|j: int|
        0 <= j < n && #[trigger] after.value(j) != before.value(j) implies after.current(j) is None
        || j == i by {
        if j != i {
            assert(depends_on(before.kinds(), j, i));
            assert(after.kinds()[j] == before.kinds()[j]);
        }
    }
}

/// Changing input `i` keeps the value of every node that does not depend on it.
proof fn lemma_other_values_kept<T, O, F: Fn(O, Args<T>) -> T>(
    kinds: Seq<NodeKind<T, O>>,
    changed: Seq<NodeKind<T, O>>,
    eval: F,
    i: int,
    v: T,
    j: int,
)
    requires
        0 <= i < kinds.len(),
        kinds[i] is Input,
        changed == kinds.update(i, NodeKind::Input(v)),
        0 <= j < kinds.len(),
        !depends_on(kinds, j, i),
    ensures
        value_of(changed, eval, j) == value_of(kinds, eval, j),
    decreases j,
{
    match kinds[j] {
        NodeKind::Input(_) => {},
        NodeKind::Unary(_, x) => {
            if x < j {
                lemma_other_values_kept(kinds, changed, eval, i, v, x as int);
            }
        },
        NodeKind::Binary(_, x, y) => {
            if x < j {
                lemma_other_values_kept(kinds, changed, eval, i, v, x as int);
            }
            if y < j {
                lemma_other_values_kept(kinds, changed, eval, i, v, y as int);
            }
        },
    }
}

/// A node that applies an operation to one node twice gets that node's value
/// in both places: sharing a node is no different from reading two nodes that
/// hold the same value.
pub proof fn lemma_shared_operand<T: Copy, O: Copy, F: Fn(O, Args<T>) -> T>(
    g: Graph<T, O, F>,
    id: int,
    op: O,
    x: usize,
)
    requires
        g.wf(),
        0 <= id < g.kinds().len(),
        g.kinds()[id] == NodeKind::<T, O>::Binary(op, x, x),
    ensures
        g.value(id) == apply(g.evaluator(), op, Args::Two(g.value(x as int), g.value(x as int))),
{
    assert(reads(g.kinds()[id], x as int));
}

/// What `compute` returns depends on what the nodes are and on the evaluator
/// alone: two graphs built alike, with equal inputs, give the same result for
/// every node, whatever their caches hold.
pub proof fn lemma_result_ignores_caches<T: Copy, O: Copy, F: Fn(O, Args<T>) -> T>(
    g1: Graph<T, O, F>,
    g2: Graph<T, O, F>,
    i: int,
)
    requires
        g1.wf(),
        g2.wf(),
        g1.kinds() == g2.kinds(),
        g1.evaluator() == g2.evaluator(),
        0 <= i < g1.kinds().len(),
    ensures
        g1.value(i) == g2.value(i),
{
}

} // verus!
