//! Sequential pipelines of named steps, optionally followed by a final
//! estimator.

use vstd::prelude::*;
use crate::text::text_eq;

verus! {

/// The names and steps of a list of named steps.
pub open spec fn named_steps<T>(v: Seq<(String, T)>) -> Seq<(Seq<char>, T)> {
    Seq::new(v.len(), |i: int| (v[i].0@, v[i].1))
}

/// Step `i` is the first named `name`.
pub open spec fn first_named<T>(steps: Seq<(Seq<char>, T)>, name: Seq<char>, i: int) -> bool {
    &&& 0 <= i < steps.len()
    &&& steps[i].0 == name
    &&& forall|j: int| 0 <= j < i ==> (#[trigger] steps[j]).0 != name
}

/// Some step is named `name`.
pub open spec fn has_named<T>(steps: Seq<(Seq<char>, T)>, name: Seq<char>) -> bool {
    exists|i: int| 0 <= i < steps.len() && (#[trigger] steps[i]).0 == name
}

/// Only one step can be the first of a name.
pub proof fn lemma_first_named_unique<T>(steps: Seq<(Seq<char>, T)>, name: Seq<char>, i: int, j: int)
    requires
        first_named(steps, name, i),
        first_named(steps, name, j),
    ensures
        i == j,
{
    if i < j {
        assert(steps[i].0 == name);
    } else if j < i {
        assert(steps[j].0 == name);
    }
}

/// Replacing the first step named `name` by `t` leaves it the first step of
/// that name, so a lookup by the name reads back `t`.
pub proof fn lemma_set_then_get<T>(steps: Seq<(Seq<char>, T)>, name: Seq<char>, i: int, t: T)
    requires
        first_named(steps, name, i),
    ensures
        first_named(steps.update(i, (name, t)), name, i),
        forall|j: int|
            #[trigger] first_named(steps.update(i, (name, t)), name, j) ==> steps.update(
                i,
                (name, t),
            )[j].1 == t,
{
    let after = steps.update(i, (name, t));
    assert forall|j: int| 0 <= j < i implies (#[trigger] after[j]).0 != name by {
        assert(after[j] == steps[j]);
    }
    assert forall|j: int| #[trigger] first_named(after, name, j) implies after[j].1 == t by {
        lemma_first_named_unique(after, name, i, j);
    }
}

/// A sequence of named steps applied in order.
pub struct Pipeline<T> {
    steps: Vec<(String, T)>,
}

/// Finds the first step named `name`.
fn find_named<T>(steps: &Vec<(String, T)>, name: &str) -> (r: Option<usize>)
    ensures
        match r {
            Some(i) => first_named(named_steps(steps@), name@, i as int),
            None => !has_named(named_steps(steps@), name@),
        },
{
    let n = steps.len();
    let ghost ns = named_steps(steps@);
    for i in 0..n
        invariant
            n == steps@.len(),
            ns == named_steps(steps@),
            forall|j: int| 0 <= j < i ==> (#[trigger] ns[j]).0 != name@,
    {
        if text_eq(steps[i].0.as_str(), name) {
            return Some(i);
        }
    }
    proof {
        if has_named(ns, name@) {
            let i = choose|i: int| 0 <= i < ns.len() && (#[trigger] ns[i]).0 == name@;
            assert(ns[i].0 != name@);
        }
    }
    None
}

impl<T> Pipeline<T> {
    /// The names and steps, in order.
    pub closed spec fn spec_steps(&self) -> Seq<(Seq<char>, T)> {
        named_steps(self.steps@)
    }

    /// An empty pipeline.
    pub fn new() -> (r: Self)
        ensures
            r.spec_steps() == Seq::<(Seq<char>, T)>::empty(),
    {
        let r = Pipeline { steps: Vec::new() };
        assert(r.spec_steps() =~= Seq::empty());
        r
    }

    /// Appends a named step.
    pub fn push(self, name: &str, t: T) -> (r: Self)
        ensures
            r.spec_steps() == self.spec_steps().push((name@, t)),
    {
        let mut steps = self.steps;
        let ghost before = steps@;
        steps.push((name.to_owned(), t));
        let r = Pipeline { steps };
        assert(r.spec_steps() =~= named_steps(before).push((name@, t)));
        r
    }

    /// The number of steps.
    pub fn len(&self) -> (r: usize)
        ensures
            r == self.spec_steps().len(),
    {
        self.steps.len()
    }

    /// Whether there are no steps.
    pub fn is_empty(&self) -> (r: bool)
        ensures
            r == (self.spec_steps().len() == 0),
    {
        self.steps.len() == 0
    }

    /// The names of the steps, in order.
    pub fn names(&self) -> (r: Vec<&str>)
        ensures
            r@.len() == self.spec_steps().len(),
            forall|i: int| 0 <= i < r@.len() ==> (#[trigger] r@[i])@ == self.spec_steps()[i].0,
    {
        let n = self.steps.len();
        let mut out: Vec<&str> = Vec::new();
        for i in 0..n
            invariant
                n == self.steps@.len(),
                out@.len() == i,
                forall|j: int| 0 <= j < i ==> (#[trigger] out@[j])@ == self.spec_steps()[j].0,
        {
            out.push(self.steps[i].0.as_str());
        }
        out
    }

    /// The named steps, in order.
    pub fn steps(&self) -> (r: &[(String, T)])
        ensures
            named_steps(r@) == self.spec_steps(),
    {
        self.steps.as_slice()
    }

    /// Mutable access to the named steps.
    pub fn steps_mut(&mut self) -> (r: &mut Vec<(String, T)>)
        ensures
            named_steps(r@) == old(self).spec_steps(),
            final(self).spec_steps() == named_steps(final(r)@),
    {
        &mut self.steps
    }

    /// The first step named `name`, if any.
    pub fn get_step(&self, name: &str) -> (r: Option<&T>)
        ensures
            match r {
                Some(t) => exists|i: int|
                    #[trigger] first_named(self.spec_steps(), name@, i) && *t == self.spec_steps()[i].1,
                None => !has_named(self.spec_steps(), name@),
            },
    {
        match find_named(&self.steps, name) {
            Some(i) => {
                assert(first_named(self.spec_steps(), name@, i as int));
                assert(self.spec_steps()[i as int].1 == self.steps@[i as int].1);
                Some(&self.steps[i].1)
            },
            None => None,
        }
    }

    /// Mutable access to the first step named `name`, if any.
    pub fn get_step_mut(&mut self, name: &str) -> (r: Option<&mut T>)
        ensures
            has_named(old(self).spec_steps(), name@) ==> exists|i: int|
                #[trigger] first_named(old(self).spec_steps(), name@, i) && (r matches Some(t) && *t
                    == old(self).spec_steps()[i].1 && final(self).spec_steps() == old(
                    self,
                ).spec_steps().update(i, (name@, *final(t)))),
            !has_named(old(self).spec_steps(), name@) ==> r is None && final(self).spec_steps()
                == old(self).spec_steps(),
    {
        match find_named(&self.steps, name) {
            Some(i) => {
                let ghost before = self.steps@;
                assert(first_named(self.spec_steps(), name@, i as int));
                let entry = &mut self.steps[i];
                Some(&mut entry.1)
            },
            None => None,
        }
    }

    /// The step at `index` with its name, if there is one.
    pub fn step(&self, index: usize) -> (r: Option<(&String, &T)>)
        ensures
            index < self.spec_steps().len() ==> (r matches Some(p) && p.0@ == self.spec_steps()[index as int].0
                && *p.1 == self.spec_steps()[index as int].1),
            index >= self.spec_steps().len() ==> r is None,
    {
        if index < self.steps.len() {
            let p = &self.steps[index];
            Some((&p.0, &p.1))
        } else {
            None
        }
    }

    /// Mutable access to the step at `index` and its name, if there is one.
    pub fn step_mut(&mut self, index: usize) -> (r: Option<(&mut String, &mut T)>)
        ensures
            index < old(self).spec_steps().len() ==> (r matches Some(p) && (*p.0)@ == old(
                self,
            ).spec_steps()[index as int].0 && *p.1 == old(self).spec_steps()[index as int].1
                && final(self).spec_steps() == old(self).spec_steps().update(
                index as int,
                ((*final(p.0))@, *final(p.1)),
            )),
            index >= old(self).spec_steps().len() ==> r is None && final(self).spec_steps()
                == old(self).spec_steps(),
    {
        if index < self.steps.len() {
            let entry = &mut self.steps[index];
            Some((&mut entry.0, &mut entry.1))
        } else {
            None
        }
    }

    /// Removes the step at `index` and returns it with its name.
    pub fn remove_step(&mut self, index: usize) -> (r: Option<(String, T)>)
        ensures
            index < old(self).spec_steps().len() ==> (r matches Some(p) && (p.0@, p.1)
                == old(self).spec_steps()[index as int] && final(self).spec_steps()
                == old(self).spec_steps().remove(index as int)),
            index >= old(self).spec_steps().len() ==> r is None && final(self).spec_steps()
                == old(self).spec_steps(),
    {
        if index < self.steps.len() {
            let ghost before = self.steps@;
            let p = self.steps.remove(index);
            assert(named_steps(self.steps@) =~= named_steps(before).remove(index as int));
            Some(p)
        } else {
            None
        }
    }

    /// Inserts a named step at `index`, shifting later steps right.
    pub fn insert_step(self, index: usize, name: &str, t: T) -> (r: Self)
        requires
            index <= self.spec_steps().len(),
        ensures
            r.spec_steps() == self.spec_steps().insert(index as int, (name@, t)),
    {
        let mut steps = self.steps;
        let ghost before = steps@;
        steps.insert(index, (name.to_owned(), t));
        let r = Pipeline { steps };
        assert(r.spec_steps() =~= named_steps(before).insert(index as int, (name@, t)));
        r
    }

    /// Replaces the first step named `name`, returning the previous one.
    pub fn set_step(&mut self, name: &str, t: T) -> (r: Option<T>)
        ensures
            has_named(old(self).spec_steps(), name@) ==> exists|i: int|
                #[trigger] first_named(old(self).spec_steps(), name@, i) && r == Some(
                    old(self).spec_steps()[i].1,
                ) && final(self).spec_steps() == old(self).spec_steps().update(i, (name@, t)),
            !has_named(old(self).spec_steps(), name@) ==> r is None && final(self).spec_steps()
                == old(self).spec_steps(),
    {
        match find_named(&self.steps, name) {
            Some(i) => {
                let ghost before = self.steps@;
                let (n, old_t) = self.steps.remove(i);
                self.steps.insert(i, (n, t));
                assert(named_steps(self.steps@) =~= named_steps(before).update(i as int, (name@, t)));
                Some(old_t)
            },
            None => None,
        }
    }

    /// Attaches a final estimator after the steps.
    pub fn with_estimator<E>(self, estimator: E) -> (r: SupervisedPipeline<T, E>)
        ensures
            r.spec_transformers() == self.spec_steps(),
            r.spec_estimator() == estimator,
            !r.spec_fitted(),
    {
        SupervisedPipeline::from_pipeline(self, estimator)
    }
}

/// Preprocessing steps followed by a final estimator; it must be fitted
/// again after any change to its steps or estimator.
pub struct SupervisedPipeline<T, E> {
    transformers: Pipeline<T>,
    estimator: E,
    fitted: bool,
}

impl<T, E> SupervisedPipeline<T, E> {
    /// The preprocessing steps.
    pub closed spec fn spec_transformers(&self) -> Seq<(Seq<char>, T)> {
        self.transformers.spec_steps()
    }

    /// The final estimator.
    pub closed spec fn spec_estimator(&self) -> E {
        self.estimator
    }

    /// Whether the pipeline is fitted.
    pub closed spec fn spec_fitted(&self) -> bool {
        self.fitted
    }

    /// A pipeline of only a final estimator.
    pub fn new(estimator: E) -> (r: Self)
        ensures
            r.spec_transformers() == Seq::<(Seq<char>, T)>::empty(),
            r.spec_estimator() == estimator,
            !r.spec_fitted(),
    {
        SupervisedPipeline { transformers: Pipeline::new(), estimator, fitted: false }
    }

    /// A pipeline of the given steps and final estimator.
    pub fn from_pipeline(transformers: Pipeline<T>, estimator: E) -> (r: Self)
        ensures
            r.spec_transformers() == transformers.spec_steps(),
            r.spec_estimator() == estimator,
            !r.spec_fitted(),
    {
        SupervisedPipeline { transformers, estimator, fitted: false }
    }

    /// Adds a preprocessing step before the estimator; the pipeline is no
    /// longer fitted.
    pub fn push(self, name: &str, transformer: T) -> (r: Self)
        ensures
            r.spec_transformers() == self.spec_transformers().push((name@, transformer)),
            r.spec_estimator() == self.spec_estimator(),
            !r.spec_fitted(),
    {
        let SupervisedPipeline { transformers, estimator, fitted: _ } = self;
        SupervisedPipeline { transformers: transformers.push(name, transformer), estimator, fitted: false }
    }

    /// The preprocessing steps.
    pub fn transformers(&self) -> (r: &Pipeline<T>)
        ensures
            r.spec_steps() == self.spec_transformers(),
    {
        &self.transformers
    }

    /// The final estimator.
    pub fn estimator(&self) -> (r: &E)
        ensures
            *r == self.spec_estimator(),
    {
        &self.estimator
    }

    /// Mutable access to the final estimator; the pipeline is no longer
    /// fitted.
    pub fn estimator_mut(&mut self) -> (r: &mut E)
        ensures
            *r == old(self).spec_estimator(),
            final(self).spec_estimator() == *final(r),
            final(self).spec_transformers() == old(self).spec_transformers(),
            !final(self).spec_fitted(),
    {
        self.fitted = false;
        &mut self.estimator
    }

    /// Records how fitting went: the caller fits each step in order on the
    /// transformed features and then the estimator, calling this with `true`
    /// only when every one of them succeeded.
    pub fn record_fit(&mut self, succeeded: bool)
        ensures
            final(self).spec_fitted() == succeeded,
            final(self).spec_transformers() == old(self).spec_transformers(),
            final(self).spec_estimator() == old(self).spec_estimator(),
    {
        self.fitted = succeeded;
    }

    /// Whether the pipeline is fitted.
    pub fn is_fitted(&self) -> (r: bool)
        ensures
            r == self.spec_fitted(),
    {
        self.fitted
    }
}

} // verus!
