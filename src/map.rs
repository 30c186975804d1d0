//! The lazy `map` combinator: a callable applied to values pulled in step
//! from several sources, stopping at the first source that ends.
use std::rc::Rc;
use vstd::prelude::*;

verus! {

/// An error raised by a source or by the callable.
#[derive(Clone, Copy, Debug, PartialEq, Eq, Structural)]
pub enum PyError {
    /// An input to the combinator cannot be iterated.
    NotIterable,
    /// An arithmetic result does not fit in an `i64`.
    Overflow,
    /// An error with an application-defined code.
    Raised(u64),
}

/// Outcome of pulling from a source or of invoking a callable.
#[derive(Clone, Copy, Debug, PartialEq, Eq, Structural)]
pub enum Step {
    Value(i64),
    Stopped,
    Error(PyError),
}

/// An iteration source that yields a fixed list of outcomes in order and then
/// reports `Stopped` on every further pull.
#[derive(Debug)]
pub struct PyIter {
    pub outcomes: Vec<Step>,
    pub pos: usize,
    /// Whether the source reports how many outcomes remain.
    pub hinted: bool,
}

/// The mathematical state of a source: its outcomes, how many were pulled,
/// and whether it reports a length hint.
pub struct IterModel {
    pub outcomes: Seq<Step>,
    pub pos: nat,
    pub hinted: bool,
}

impl View for PyIter {
    type V = IterModel;

    open spec fn view(&self) -> IterModel {
        IterModel { outcomes: self.outcomes@, pos: self.pos as nat, hinted: self.hinted }
    }
}

/// What the next pull from a source yields.
pub open spec fn peek(it: IterModel) -> Step {
    if it.pos < it.outcomes.len() {
        it.outcomes[it.pos as int]
    } else {
        Step::Stopped
    }
}

/// A source after one pull.
pub open spec fn advance(it: IterModel) -> IterModel {
    if it.pos < it.outcomes.len() {
        IterModel { pos: it.pos + 1, ..it }
    } else {
        it
    }
}

/// A source's length hint: the outcomes left, or `None` when it gives none.
pub open spec fn hint_of(it: IterModel) -> Option<nat> {
    if !it.hinted {
        None
    } else if it.pos < it.outcomes.len() {
        Some((it.outcomes.len() - it.pos) as nat)
    } else {
        Some(0)
    }
}

impl PyIter {
    /// A source over `values`, with a length hint.
    pub fn from_values(values: Vec<i64>) -> (r: PyIter)
        ensures
            r@.pos == 0,
            r@.hinted,
            r@.outcomes == values@.map_values(|v: i64| Step::Value(v)),
    {
        let n = values.len();
        let mut outcomes: Vec<Step> = Vec::new();
        let mut i: usize = 0;
        while i < n
            invariant
                n == values@.len(),
                i <= n,
                outcomes@ == values@.take(i as int).map_values(|v: i64| Step::Value(v)),
            decreases n - i,
        {
            outcomes.push(Step::Value(values[i]));
            i = i + 1;
            assert(outcomes@ =~= values@.take(i as int).map_values(|v: i64| Step::Value(v)));
        }
        assert(values@.take(n as int) =~= values@);
        PyIter { outcomes, pos: 0, hinted: true }
    }

    /// A source over the given outcomes, which may hold stops and errors
    /// before its end.
    pub fn from_outcomes(outcomes: Vec<Step>, hinted: bool) -> (r: PyIter)
        ensures
            r@ == (IterModel { outcomes: outcomes@, pos: 0, hinted }),
    {
        PyIter { outcomes, pos: 0, hinted }
    }

    /// Pulls the next outcome.
    pub fn next(&mut self) -> (r: Step)
        ensures
            r == peek(old(self)@),
            final(self)@ == advance(old(self)@),
    {
        if self.pos < self.outcomes.len() {
            let r = self.outcomes[self.pos];
            self.pos = self.pos + 1;
            r
        } else {
            Step::Stopped
        }
    }

    /// The number of outcomes left, when the source reports it.
    pub fn length_hint(&self) -> (r: Option<usize>)
        ensures
            r matches Some(n) ==> hint_of(self@) == Some(n as nat),
            r is None ==> hint_of(self@) is None,
    {
        if !self.hinted {
            None
        } else if self.pos < self.outcomes.len() {
            Some(self.outcomes.len() - self.pos)
        } else {
            Some(0)
        }
    }
}

/// Sum of a sequence of integers.
pub open spec fn seq_sum(s: Seq<i64>) -> int
    decreases s.len(),
{
    if s.len() == 0 {
        0
    } else {
        seq_sum(s.drop_last()) + s.last()
    }
}

/// Every partial sum of `s`, taken left to right, fits in an `i64`.
pub open spec fn sum_fits(s: Seq<i64>) -> bool {
    forall|k: int| 0 <= k <= s.len() ==> i64::MIN <= #[trigger] seq_sum(s.take(k)) <= i64::MAX
}

/// A callable the combinator applies to the values it pulls.
#[derive(Clone, Copy, Debug, PartialEq, Eq, Structural)]
pub enum Mapper {
    /// Returns the sum of its arguments.
    Sum,
    /// Returns the sum of its arguments while it is below the limit, and
    /// signals a stop once it reaches it.
    SumBelow(i64),
    /// Raises the given error code.
    Fail(u64),
}

/// What calling `m` with `args` yields.
pub open spec fn call_spec(m: Mapper, args: Seq<i64>) -> Step {
    match m {
        Mapper::Sum => {
            if sum_fits(args) {
                Step::Value(seq_sum(args) as i64)
            } else {
                Step::Error(PyError::Overflow)
            }
        },
        Mapper::SumBelow(limit) => {
            if !sum_fits(args) {
                Step::Error(PyError::Overflow)
            } else if seq_sum(args) >= limit {
                Step::Stopped
            } else {
                Step::Value(seq_sum(args) as i64)
            }
        },
        Mapper::Fail(code) => Step::Error(PyError::Raised(code)),
    }
}

/// The sum of `args`, or `None` when a partial sum leaves the `i64` range.
fn checked_sum(args: &Vec<i64>) -> (r: Option<i64>)
    ensures
        r is Some <==> sum_fits(args@),
        r matches Some(v) ==> v == seq_sum(args@),
{
    let n = args.len();
    let mut acc: i64 = 0;
    let mut i: usize = 0;
    assert(args@.take(0) =~= Seq::<i64>::empty());
    while i < n
        invariant
            n == args@.len(),
            i <= n,
            acc == seq_sum(args@.take(i as int)),
            forall|k: int| 0 <= k <= i ==> i64::MIN <= #[trigger] seq_sum(args@.take(k)) <= i64::MAX,
        decreases n - i,
    {
        assert(args@.take(i + 1).drop_last() =~= args@.take(i as int));
        let next = acc as i128 + args[i] as i128;
        assert(seq_sum(args@.take(i + 1)) == acc + args@[i as int]);
        if next < i64::MIN as i128 || next > i64::MAX as i128 {
            return None;
        }
        acc = next as i64;
        i = i + 1;
    }
    assert(args@.take(n as int) =~= args@);
    Some(acc)
}

impl Mapper {
    /// Invokes the callable with `args`.
    pub fn call(&self, args: &Vec<i64>) -> (r: Step)
        ensures
            r == call_spec(*self, args@),
    {
        match self {
            Mapper::Sum => match checked_sum(args) {
                Some(v) => Step::Value(v),
                None => Step::Error(PyError::Overflow),
            },
            Mapper::SumBelow(limit) => match checked_sum(args) {
                Some(v) => {
                    if v >= *limit {
                        Step::Stopped
                    } else {
                        Step::Value(v)
                    }
                },
                None => Step::Error(PyError::Overflow),
            },
            Mapper::Fail(code) => Step::Error(PyError::Raised(*code)),
        }
    }
}

/// An argument handed to the combinator's constructor.
pub enum Iterable {
    /// A list of values.
    List(Vec<i64>),
    /// A source that is already an iterator.
    Iter(PyIter),
    /// A value that cannot be iterated.
    NotIterable,
}

/// The source that an iterable argument converts to: a list becomes a fresh
/// hinted source over its values.
pub open spec fn converted(a: Iterable) -> IterModel
    recommends
        !(a is NotIterable),
{
    match a {
        Iterable::List(v) => IterModel {
            outcomes: v@.map_values(|x: i64| Step::Value(x)),
            pos: 0,
            hinted: true,
        },
        Iterable::Iter(p) => p@,
        Iterable::NotIterable => IterModel { outcomes: seq![], pos: 0, hinted: false },
    }
}

/// The models of a list of sources.
pub open spec fn models(its: Seq<PyIter>) -> Seq<IterModel> {
    its.map_values(|p: PyIter| p@)
}

/// The first position whose source does not yield a value on its next pull,
/// searching from `k`; the number of sources when there is none.
pub open spec fn halt_from(its: Seq<IterModel>, k: int) -> int
    decreases its.len() - k,
{
    if k < 0 || k >= its.len() {
        its.len() as int
    } else if peek(its[k]) is Value {
        halt_from(its, k + 1)
    } else {
        k
    }
}

pub open spec fn halt_index(its: Seq<IterModel>) -> int {
    halt_from(its, 0)
}

/// The values that the next pull of each source yields.
pub open spec fn next_values(its: Seq<IterModel>) -> Seq<i64> {
    Seq::new(its.len(), |j: int| peek(its[j])->Value_0)
}

/// The sources after one step: each up to the halting one is pulled once,
/// the rest are left alone.
pub open spec fn pulled(its: Seq<IterModel>) -> Seq<IterModel> {
    Seq::new(its.len(), |j: int| if j <= halt_index(its) { advance(its[j]) } else { its[j] })
}

/// What one step of the combinator produces: the stop or error of the first
/// source that does not yield a value, else the callable's result on the
/// pulled values.
pub open spec fn map_next(m: Mapper, its: Seq<IterModel>) -> Step {
    if halt_index(its) < its.len() {
        peek(its[halt_index(its)])
    } else {
        call_spec(m, next_values(its))
    }
}

/// A source's length hint, counting a missing one as zero.
pub open spec fn hint_or_zero(it: IterModel) -> nat {
    match hint_of(it) {
        Some(n) => n,
        None => 0,
    }
}

/// The largest length hint of the sources, zero when there are none.
pub open spec fn max_hint(its: Seq<IterModel>) -> nat
    decreases its.len(),
{
    if its.len() == 0 {
        0
    } else {
        let m = max_hint(its.drop_last());
        let h = hint_or_zero(its.last());
        if h > m {
            h
        } else {
            m
        }
    }
}

pub proof fn lemma_halt_skip(its: Seq<IterModel>, i: int, j: int)
    requires
        0 <= i <= j <= its.len(),
        forall|k: int| i <= k < j ==> #[trigger] peek(its[k]) is Value,
    ensures
        halt_from(its, i) == halt_from(its, j),
    decreases j - i,
{
    if i < j {
        lemma_halt_skip(its, i + 1, j);
    }
}

/// `map(func, *iterables)`: applies a callable to values taken in step from
/// several sources, stopping when the first of them is exhausted.
pub struct PyMap {
    pub mapper: Rc<Mapper>,
    pub iterators: Vec<PyIter>,
}

impl PyMap {
    /// Builds the combinator, converting each iterable argument to a source;
    /// fails with `NotIterable` when one of them cannot be converted.
    pub fn py_new(mapper: Rc<Mapper>, iterables: Vec<Iterable>) -> (r: Result<PyMap, PyError>)
        ensures
            (forall|j: int| 0 <= j < iterables@.len() ==> !(#[trigger] iterables@[j] is NotIterable))
                <==> r is Ok,
            r matches Err(e) ==> e == PyError::NotIterable,
            r matches Ok(m) ==> *m.mapper == *mapper && models(m.iterators@) == iterables@.map_values(
                |a: Iterable| converted(a),
            ),
    {
        let ghost args = iterables@;
        let n = iterables.len();
        let mut rest = iterables;
        let mut iterators: Vec<PyIter> = Vec::new();
        let mut i: usize = 0;
        while i < n
            invariant
                n == args.len(),
                args == iterables@,
                i <= n,
                iterators@.len() == i,
                rest@ == args.skip(i as int),
                forall|j: int| 0 <= j < i ==> !(#[trigger] args[j] is NotIterable),
                models(iterators@) == args.take(i as int).map_values(|a: Iterable| converted(a)),
            decreases n - i,
        {
            assert(rest@[0] == args[i as int]);
            let a = rest.remove(0);
            let ghost ga = a;
            assert(ga == args[i as int]);
            let it = match a {
                Iterable::List(v) => PyIter::from_values(v),
                Iterable::Iter(p) => p,
                Iterable::NotIterable => {
                    assert(args[i as int] is NotIterable);
                    return Err(PyError::NotIterable);
                },
            };
            assert(it@ == converted(ga));
            let ghost prev = iterators@;
            iterators.push(it);
            i = i + 1;
            assert(rest@ =~= args.skip(i as int));
            assert forall|k: int| 0 <= k < i implies #[trigger] models(iterators@)[k]
                == converted(args[k]) by {
                if k < i - 1 {
                    assert(models(prev)[k] == args.take(i - 1).map_values(
                        |a: Iterable| converted(a),
                    )[k]);
                    assert(iterators@[k] == prev[k]);
                }
            }
            assert(models(iterators@) =~= args.take(i as int).map_values(
                |a: Iterable| converted(a),
            ));
        }
        assert(args.take(n as int) =~= args);
        Ok(PyMap { mapper, iterators })
    }

    /// The largest length hint among the sources, a missing hint counting as
    /// zero.
    pub fn length_hint(&self) -> (r: usize)
        ensures
            r == max_hint(models(self.iterators@)),
    {
        let n = self.iterators.len();
        let mut best: usize = 0;
        let mut i: usize = 0;
        let ghost ms = models(self.iterators@);
        assert(ms.take(0) =~= Seq::<IterModel>::empty());
        while i < n
            invariant
                n == self.iterators@.len(),
                ms == models(self.iterators@),
                i <= n,
                best == max_hint(ms.take(i as int)),
            decreases n - i,
        {
            let h = match self.iterators[i].length_hint() {
                Some(h) => h,
                None => 0,
            };
            assert(ms.take(i + 1).drop_last() =~= ms.take(i as int));
            if h > best {
                best = h;
            }
            i = i + 1;
        }
        assert(ms.take(n as int) =~= ms);
        best
    }

    /// Pulls one value from each source in order and applies the callable to
    /// them. The first source that reports a stop or an error ends the step
    /// with that outcome, and the sources after it are not pulled. A stop
    /// signalled by the callable is the combinator's own stop.
    pub fn next(&mut self) -> (r: Step)
        ensures
            r == map_next(*old(self).mapper, models(old(self).iterators@)),
            models(final(self).iterators@) == pulled(models(old(self).iterators@)),
            final(self).mapper == old(self).mapper,
    {
        let ghost start = models(self.iterators@);
        let n = self.iterators.len();
        let mut args: Vec<i64> = Vec::new();
        let mut j: usize = 0;
        while j < n
            invariant
                n == self.iterators@.len(),
                n == start.len(),
                j <= n,
                self.mapper == old(self).mapper,
                start == models(old(self).iterators@),
                args@.len() == j,
                forall|k: int| 0 <= k < j ==> #[trigger] peek(start[k]) is Value,
                forall|k: int| 0 <= k < j ==> args@[k] == #[trigger] next_values(start)[k],
                forall|k: int|
                    0 <= k < j ==> #[trigger] models(self.iterators@)[k] == advance(start[k]),
                forall|k: int|
                    j <= k < n ==> #[trigger] models(self.iterators@)[k] == start[k],
            decreases n - j,
        {
            assert(models(self.iterators@)[j as int] == start[j as int]);
            let ghost before = self.iterators@;
            let s = self.iterators[j].next();
            assert(models(self.iterators@)[j as int] == advance(start[j as int]));
            assert(s == peek(start[j as int]));
            assert(forall|k: int|
                0 <= k < n && k != j ==> #[trigger] models(self.iterators@)[k] == models(before)[k]);
            match s {
                Step::Value(v) => {
                    args.push(v);
                    j = j + 1;
                },
                _ => {
                    proof {
                        lemma_halt_skip(start, 0, j as int);
                        assert(models(self.iterators@) =~= pulled(start));
                    }
                    return s;
                },
            }
        }
        proof {
            lemma_halt_skip(start, 0, n as int);
            assert(models(self.iterators@) =~= pulled(start));
            assert(args@ =~= next_values(start));
        }
        self.mapper.call(&args)
    }
}

/// A fresh hinted source over `values`.
pub open spec fn fresh(values: Seq<i64>) -> IterModel {
    IterModel { outcomes: values.map_values(|x: i64| Step::Value(x)), pos: 0, hinted: true }
}

/// The outcomes of `n` successive steps of the combinator.
pub open spec fn run(m: Mapper, its: Seq<IterModel>, n: nat) -> Seq<Step>
    decreases n,
{
    if n == 0 {
        seq![]
    } else {
        seq![map_next(m, its)] + run(m, pulled(its), (n - 1) as nat)
    }
}

/// Over fresh sources of two, three and four values, the combinator applies
/// the callable to the first two columns of values and then stops.
pub proof fn lemma_map_stops_at_shortest(m: Mapper, a: Seq<i64>, b: Seq<i64>, c: Seq<i64>)
    requires
        a.len() == 2,
        b.len() == 3,
        c.len() == 4,
    ensures
        run(m, seq![fresh(a), fresh(b), fresh(c)], 3) == seq![
            call_spec(m, seq![a[0], b[0], c[0]]),
            call_spec(m, seq![a[1], b[1], c[1]]),
            Step::Stopped,
        ],
{
    let s0 = seq![fresh(a), fresh(b), fresh(c)];
    reveal_with_fuel(halt_from, 4);
    assert(halt_index(s0) == 3);
    assert(next_values(s0) =~= seq![a[0], b[0], c[0]]);
    let s1 = pulled(s0);
    assert(s1[0].pos == 1 && s1[1].pos == 1 && s1[2].pos == 1);
    assert(peek(s1[0]) == Step::Value(a[1]));
    assert(peek(s1[1]) == Step::Value(b[1]));
    assert(peek(s1[2]) == Step::Value(c[1]));
    assert(halt_index(s1) == 3);
    assert(next_values(s1) =~= seq![a[1], b[1], c[1]]);
    let s2 = pulled(s1);
    assert(s2[0].pos == 2);
    assert(peek(s2[0]) == Step::Stopped);
    assert(halt_index(s2) == 0);
    assert(map_next(m, s2) == Step::Stopped);
    assert(run(m, pulled(s2), 0) =~= Seq::<Step>::empty());
    assert(run(m, s2, 1) =~= seq![Step::Stopped]);
    assert(run(m, s1, 2) =~= seq![call_spec(m, seq![a[1], b[1], c[1]]), Step::Stopped]);
}

/// The summing callable returns the sum of three values whose partial sums
/// fit in an `i64`.
pub proof fn lemma_sum_of_three(x: i64, y: i64, z: i64)
    requires
        i64::MIN <= x + y <= i64::MAX,
        i64::MIN <= x + y + z <= i64::MAX,
    ensures
        call_spec(Mapper::Sum, seq![x, y, z]) == Step::Value((x + y + z) as i64),
{
    let s = seq![x, y, z];
    assert(s.take(0) =~= Seq::<i64>::empty());
    assert(s.take(1).drop_last() =~= s.take(0));
    assert(s.take(2).drop_last() =~= s.take(1));
    assert(s.take(3).drop_last() =~= s.take(2));
    assert(s.take(3) =~= s);
    assert(s.take(1).last() == x);
    assert(seq_sum(s.take(0)) == 0);
    assert(seq_sum(s.take(1)) == x);
    assert(s.take(2).last() == y);
    assert(seq_sum(s.take(2)) == x + y);
    assert(s.last() == z);
    assert(seq_sum(s) == x + y + z);
    assert forall|k: int| 0 <= k <= s.len() implies i64::MIN <= #[trigger] seq_sum(s.take(k))
        <= i64::MAX by {
        if k == 3 {
            assert(s.take(k) == s);
        }
    }
}

/// When every source yields a value and the callable signals a stop, the
/// step stops, each source having been pulled exactly once.
pub proof fn lemma_callable_stop(m: Mapper, its: Seq<IterModel>)
    requires
        forall|j: int| 0 <= j < its.len() ==> #[trigger] peek(its[j]) is Value,
        call_spec(m, next_values(its)) is Stopped,
    ensures
        map_next(m, its) is Stopped,
        pulled(its) == its.map_values(|it: IterModel| advance(it)),
{
    lemma_halt_skip(its, 0, its.len() as int);
    assert(pulled(its) =~= its.map_values(|it: IterModel| advance(it)));
}

/// The combined length hint is the largest hint of any source, not the
/// smallest.
pub proof fn lemma_length_hint_is_max(its: Seq<IterModel>)
    ensures
        forall|j: int| 0 <= j < its.len() ==> hint_or_zero(#[trigger] its[j]) <= max_hint(its),
        its.len() > 0 ==> exists|j: int|
            0 <= j < its.len() && max_hint(its) == hint_or_zero(#[trigger] its[j]),
    decreases its.len(),
{
    if its.len() > 0 {
        let init = its.drop_last();
        lemma_length_hint_is_max(init);
        assert forall|j: int| 0 <= j < its.len() implies hint_or_zero(#[trigger] its[j])
            <= max_hint(its) by {
            if j < init.len() {
                assert(its[j] == init[j]);
            }
        }
        if hint_or_zero(its.last()) > max_hint(init) || init.len() == 0 {
            assert(max_hint(its) == hint_or_zero(its[its.len() - 1]));
        } else {
            let k = choose|k: int|
                0 <= k < init.len() && max_hint(init) == hint_or_zero(#[trigger] init[k]);
            assert(its[k] == init[k]);
        }
    }
}

} // verus!
