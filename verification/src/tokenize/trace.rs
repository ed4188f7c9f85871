//! Why the tokenizer produced the tokens it did.
//!
//! The pipeline is a sequence of small decisions — a rewrite of the line, a
//! wordhood gate per morpheme, two split passes, a stammer filter, an identity
//! ladder per token, and a recomposition pass that offers runs of tokens up to
//! be joined. This is the channel they announce themselves on.
//!
//! **Recording is the same code path as tokenizing, never a second one.** So
//! [`Trace`] is threaded through the real functions and is inert when off —
//! [`Trace::push`] takes a closure, so a step nobody asked for is a bool check
//! and never a string built.
use vstd::prelude::*;

verus! {

/// One decision, in the order it was made.
#[derive(Debug)]
pub enum Step {
    /// The pipeline's one edit to its input: emphatic っ removed. Absent when
    /// the line had none.
    Rewrite { from: String, to: String },
    /// Sudachi's own segmentation, before any of our rules run.
    Segment { mode: &'static str, parts: Vec<String> },
    /// The wordhood gate: is this compound a word in its own right, so the
    /// C→B→A pass should stop here rather than take it apart?
    Gate { surface: String, kept: bool, why: String },
    /// A morpheme the wordhood gate declined, and its parts at the next level down.
    Split { surface: String, mode: &'static str, parts: Vec<String> },
    /// A stammer's leading fragment, dropped.
    Stutter { fragment: String, into: String },
    /// Which `(headword, reading)` a token was filed under, and which rung of
    /// the ladder settled it.
    Identity {
        surface: String,
        headword: String,
        reading: String,
        rule: &'static str,
        /// The ladder as it stood after filtering, most canonical first.
        candidates: Vec<String>,
    },
    /// A run of adjacent tokens offered to recomposition.
    Join { parts: Vec<String>, verdict: Verdict },
}

/// What became of one candidate run.
///
/// `NoSignal` is split out from a refusal because recomposition offers every
/// run of two and three tokens at every position and nearly all of them spell
/// nothing.
#[derive(Debug)]
pub enum Verdict {
    Joined { term: String, reading: String, signal: &'static str },
    /// A signal named a word, and a later rule refused it.
    Refused { term: String, reason: String },
    /// Neither the spelling nor the reading named a listed word.
    NoSignal { reason: &'static str },
}

/// The recorder. Off by default and inert when off.
#[derive(Debug)]
pub struct Trace {
    on: bool,
    steps: Vec<Step>,
}

impl Trace {
    /// Whether steps are being kept.
    pub closed spec fn is_on(&self) -> bool {
        self.on
    }

    /// The steps kept so far.
    pub closed spec fn recorded(&self) -> Seq<Step> {
        self.steps@
    }

    pub fn off() -> (r: Trace)
        ensures
            !r.is_on(),
            r.recorded() == Seq::<Step>::empty(),
    {
        Trace { on: false, steps: Vec::new() }
    }

    pub fn recording() -> (r: Trace)
        ensures
            r.is_on(),
            r.recorded() == Seq::<Step>::empty(),
    {
        Trace { on: true, steps: Vec::new() }
    }

    pub fn is_recording(&self) -> (r: bool)
        ensures
            r == self.is_on(),
    {
        self.on
    }

    /// Record a step. The closure runs only while recording, so building the
    /// step costs nothing on the hot path.
    pub fn push<F: FnOnce() -> Step>(&mut self, step: F)
        requires
            step.requires(()),
        ensures
            final(self).is_on() == old(self).is_on(),
            !old(self).is_on() ==> final(self).recorded() == old(self).recorded(),
            old(self).is_on() ==> exists|s: Step| #[trigger] step.ensures((), s) && final(self).recorded() == old(self).recorded().push(s),
            grew_by_one(*old(self), *final(self)),
    {
        if self.on {
            let s = step();
            let ghost g = s;
            self.steps.push(s);
            proof {
                assert(self.steps@.drop_last() =~= old(self).steps@);
                assert(step.ensures((), g) && self.recorded() == old(self).recorded().push(g));
                assert(exists|s: Step| #[trigger] step.ensures((), s) && self.recorded() == old(self).recorded().push(s));
            }
        }
    }

    pub fn into_steps(self) -> (r: Vec<Step>)
        ensures
            r@ == self.recorded(),
    {
        self.steps
    }
}

/// The trace after a step was offered to it: one step more while recording,
/// unchanged while not, and switched on or off as it was.
pub open spec fn grew_by_one(before: Trace, after: Trace) -> bool {
    &&& after.is_on() == before.is_on()
    &&& !before.is_on() ==> after.recorded() == before.recorded()
    &&& before.is_on() ==> after.recorded().len() == before.recorded().len() + 1
        && after.recorded().drop_last() == before.recorded()
}

/// The trace after a pass that may record: switched on or off as it was,
/// unchanged while not recording, and while recording what it held followed
/// by what the pass added.
pub open spec fn extends(before: Trace, after: Trace) -> bool {
    &&& after.is_on() == before.is_on()
    &&& !before.is_on() ==> after.recorded() == before.recorded()
    &&& before.is_on() ==> after.recorded().len() >= before.recorded().len()
        && after.recorded().take(before.recorded().len() as int) == before.recorded()
}

/// Extending is transitive: two passes one after the other extend the trace.
pub proof fn extends_trans(a: Trace, b: Trace, c: Trace)
    requires
        extends(a, b),
        extends(b, c),
    ensures
        extends(a, c),
{
    if a.is_on() {
        assert(c.recorded().take(a.recorded().len() as int) =~= c.recorded().take(b.recorded().len() as int).take(a.recorded().len() as int));
    }
}

/// A trace that grew by one step extends the one before.
pub proof fn grew_extends(a: Trace, b: Trace)
    requires
        grew_by_one(a, b),
    ensures
        extends(a, b),
{
    if a.is_on() {
        assert(b.recorded().take(a.recorded().len() as int) =~= b.recorded().drop_last());
    }
}

/// The trace extended by at least `n` steps while recording.
pub open spec fn grows_at_least(before: Trace, after: Trace, n: int) -> bool {
    &&& extends(before, after)
    &&& before.is_on() ==> after.recorded().len() >= before.recorded().len() + n
}

pub proof fn grows_trans(a: Trace, b: Trace, c: Trace, n: int, m: int)
    requires
        grows_at_least(a, b, n),
        grows_at_least(b, c, m),
    ensures
        grows_at_least(a, c, n + m),
{
    extends_trans(a, b, c);
}

pub proof fn grew_grows(a: Trace, b: Trace, n: int)
    requires
        grew_by_one(a, b),
        n <= 1,
    ensures
        grows_at_least(a, b, n),
{
    grew_extends(a, b);
}

pub proof fn grows_none(a: Trace)
    ensures
        grows_at_least(a, a, 0),
{
    assert(a.recorded().take(a.recorded().len() as int) =~= a.recorded());
}

impl Default for Trace {
    fn default() -> (r: Trace)
        ensures
            !r.is_on(),
            r.recorded() == Seq::<Step>::empty(),
    {
        Trace::off()
    }
}

} // verus!
