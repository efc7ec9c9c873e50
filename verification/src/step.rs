//! Steps and the ordered mapping from step name to captured output.

use vstd::prelude::*;

use crate::text::str_equal;

verus! {

/// One shell invocation: a unique name and the command line handed verbatim
/// to the process runner. The name is the key under which the step's captured
/// output is stored.
pub struct Step {
    pub name: String,
    pub command: String,
}

impl Step {
    pub fn new(name: String, command: String) -> (r: Step)
        ensures
            r.name@ == name@,
            r.command@ == command@,
    {
        Step { name, command }
    }
}

/// The name/command pairs of a step list, as sequences of characters.
pub open spec fn steps_view(steps: Seq<Step>) -> Seq<(Seq<char>, Seq<char>)> {
    steps.map_values(|s: Step| (s.name@, s.command@))
}

/// Unfolds one position of [`steps_view`].
pub proof fn lemma_step_view_at(steps: Seq<Step>, i: int)
    requires
        0 <= i < steps.len(),
    ensures
        steps_view(steps)[i].0 == steps[i].name@,
        steps_view(steps)[i].1 == steps[i].command@,
{
}

/// Append-only ordered mapping from step name to captured output text.
/// Insertion order is execution order. Lookups return the first entry with
/// the given name; step names are kept unique by construction of the step
/// lists, not checked here.
#[derive(Debug)]
pub struct StepOutput {
    pub entries: Vec<(String, String)>,
}

impl View for StepOutput {
    type V = Seq<(Seq<char>, Seq<char>)>;

    open spec fn view(&self) -> Seq<(Seq<char>, Seq<char>)> {
        Seq::new(self.entries@.len(), |i: int| (self.entries@[i].0@, self.entries@[i].1@))
    }
}

/// The value stored under `name`, taking the first entry when a name repeats.
pub open spec fn lookup(m: Seq<(Seq<char>, Seq<char>)>, name: Seq<char>) -> Option<Seq<char>>
    decreases m.len(),
{
    if m.len() == 0 {
        None
    } else if m[0].0 == name {
        Some(m[0].1)
    } else {
        lookup(m.drop_first(), name)
    }
}

impl StepOutput {
    pub fn new() -> (r: StepOutput)
        ensures
            r@ =~= Seq::<(Seq<char>, Seq<char>)>::empty(),
    {
        StepOutput { entries: Vec::new() }
    }

    pub fn push(&mut self, name: String, output: String)
        ensures
            final(self)@ =~= old(self)@.push((name@, output@)),
    {
        self.entries.push((name, output));
    }

    pub fn len(&self) -> (n: usize)
        ensures
            n == self@.len(),
    {
        self.entries.len()
    }

    /// The name of the entry at position `i` (execution order).
    pub fn name_at(&self, i: usize) -> (r: &String)
        requires
            i < self@.len(),
        ensures
            r@ == self@[i as int].0,
    {
        &self.entries[i].0
    }

    /// The captured output of the entry at position `i`.
    pub fn output_at(&self, i: usize) -> (r: &String)
        requires
            i < self@.len(),
        ensures
            r@ == self@[i as int].1,
    {
        &self.entries[i].1
    }

    /// The output stored under `name`, or `None` if no step of that name ran.
    pub fn get(&self, name: &str) -> (r: Option<&String>)
        ensures
            match r {
                Some(out) => lookup(self@, name@) == Some(out@),
                None => lookup(self@, name@) is None,
            },
    {
        let n = self.entries.len();
        let mut i: usize = 0;
        proof {
            assert(self@.skip(0) =~= self@);
        }
        while i < n
            invariant
                i <= n,
                n == self@.len(),
                lookup(self@, name@) == lookup(self@.skip(i as int), name@),
            decreases n - i,
        {
            proof {
                assert(self@.skip(i as int)[0] == self@[i as int]);
                assert(self@.skip(i as int).drop_first() =~= self@.skip(i as int + 1));
            }
            if str_equal(self.entries[i].0.as_str(), name) {
                return Some(&self.entries[i].1);
            }
            i = i + 1;
        }
        proof {
            assert(self@.skip(n as int) =~= Seq::<(Seq<char>, Seq<char>)>::empty());
        }
        None
    }
}

} // verus!
