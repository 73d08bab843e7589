//! Rate matching: the search for the model and the quantiser displacement that hit a target rate.
//!
//! A [`ModelSearch`] picks the model whose rate at displacement 0 is closest. The search for the
//! displacement measures displacement 0 and, where that misses the target, both ends of the model's
//! range; a displacement interpolated from these gives a window of 100 to each side, which is then
//! bisected. The caller codes the picture at the displacement that a [`BetaSearch`] asks for and
//! tells it how the rate compares; the search decides which displacement comes next and which one
//! wins.

use vstd::prelude::*;

use crate::encoder::params;
use crate::encoder::params::{clip_beta, NUM_MODELS};

verus! {

/// The displacements that the rate matcher searches, per model. Narrower than the clipping range
/// that an encode applies.
pub const BDL_SEARCH_RANGE: [(i32, i32); 4] = [
    (-1024, 259),
    (-443, 259),
    (-443, 702),
    (-443, 702),
];

/// What a search wants next.
#[derive(Clone, Copy, Debug, PartialEq, Eq, Structural)]
pub enum SearchStep {
    /// Code the picture at this displacement and tell how its rate compares.
    Measure(i32),
    /// The same, for a displacement whose rate was measured before.
    Recall(i32),
    /// Interpolate a displacement between the ends.
    Interpolate,
    /// This displacement wins.
    Done(i32),
}

/// How far a search has come.
#[derive(Clone, Copy, Debug, PartialEq, Eq, Structural)]
pub enum SearchStage {
    /// Displacement 0 is to be measured.
    Base,
    /// The low end of the range is to be measured.
    Low,
    /// The high end of the range is to be measured.
    High,
    /// The window is to be placed.
    Window,
    /// The window is being bisected.
    Bisect,
    /// Displacement 0 met the target.
    Met,
}

/// A search for the displacement that hits a target rate.
pub struct BetaSearch {
    low: i32,
    high: i32,
    stage: SearchStage,
    from: i64,
    to: i64,
    best: Option<i32>,
    last: i32,
    measured: Ghost<Set<int>>,
}

/// A search as a value.
pub struct SearchView {
    pub low: int,
    pub high: int,
    pub stage: SearchStage,
    /// The window that is still open, both ends included.
    pub from: int,
    pub to: int,
    pub best: Option<i32>,
    pub last: i32,
    /// The displacements that were measured.
    pub measured: Set<int>,
}

/// A number within bounds.
pub open spec fn clamped(n: int, low: int, high: int) -> int {
    if n < low {
        low
    } else if n > high {
        high
    } else {
        n
    }
}

impl SearchView {
    /// Displacements in the open window.
    pub open spec fn size(self) -> int {
        if self.from <= self.to {
            self.to - self.from + 1
        } else {
            0
        }
    }

    /// The middle of the window.
    pub open spec fn middle(self) -> int {
        self.from + (self.to - self.from + 1) / 2
    }

    /// The displacement is one that the search measures before it places the window.
    pub open spec fn is_anchor(self, beta: int) -> bool {
        beta == 0 || beta == self.low || beta == self.high
    }

    /// What the search wants next.
    pub open spec fn step(self) -> SearchStep {
        match self.stage {
            SearchStage::Base => SearchStep::Measure(0),
            SearchStage::Low => if self.low == 0 {
                SearchStep::Recall(0)
            } else {
                SearchStep::Measure(self.low as i32)
            },
            SearchStage::High => if self.high == 0 || self.high == self.low {
                SearchStep::Recall(self.high as i32)
            } else {
                SearchStep::Measure(self.high as i32)
            },
            SearchStage::Window => SearchStep::Interpolate,
            SearchStage::Bisect => if self.from > self.to {
                SearchStep::Done(
                    match self.best {
                        Some(b) => b,
                        None => self.last,
                    },
                )
            } else if self.is_anchor(self.middle()) {
                SearchStep::Recall(self.middle() as i32)
            } else {
                SearchStep::Measure(self.middle() as i32)
            },
            SearchStage::Met => SearchStep::Done(0),
        }
    }

    /// The displacements measured once the wanted step is taken.
    pub open spec fn measured_next(self) -> Set<int> {
        match self.step() {
            SearchStep::Measure(b) => self.measured.insert(b as int),
            _ => self.measured,
        }
    }

    /// What always holds of a search.
    pub open spec fn wf(self) -> bool {
        &&& i32::MIN <= self.low <= 0 <= self.high <= i32::MAX
        &&& self.low <= self.last <= self.high
        &&& self.best matches Some(b) ==> self.low <= b <= self.high
        &&& self.stage == SearchStage::Bisect ==> {
            &&& self.low <= self.from <= self.high + 1
            &&& self.low - 1 <= self.to <= self.high
            &&& self.size() <= 201
        }
        &&& forall|b: int|
            #[trigger] self.measured.contains(b) ==> match self.stage {
                SearchStage::Base => false,
                SearchStage::Low => b == 0,
                SearchStage::High => b == 0 || b == self.low,
                SearchStage::Window => self.is_anchor(b),
                SearchStage::Bisect => self.is_anchor(b) || !(self.from <= b <= self.to),
                SearchStage::Met => b == 0,
            }
    }
}

impl BetaSearch {
    /// The search as a value.
    pub closed spec fn view(&self) -> SearchView {
        SearchView {
            low: self.low as int,
            high: self.high as int,
            stage: self.stage,
            from: self.from as int,
            to: self.to as int,
            best: self.best,
            last: self.last,
            measured: self.measured@,
        }
    }

    /// Start a search of the displacements `range.0 ..= range.1`.
    pub fn new(range: (i32, i32)) -> (s: BetaSearch)
        requires
            range.0 <= 0 <= range.1,
        ensures
            s.view().wf(),
            s.view() == (SearchView {
                low: range.0 as int,
                high: range.1 as int,
                stage: SearchStage::Base,
                from: 1,
                to: 0,
                best: None,
                last: 0,
                measured: Set::empty(),
            }),
    {
        BetaSearch {
            low: range.0,
            high: range.1,
            stage: SearchStage::Base,
            from: 1,
            to: 0,
            best: None,
            last: 0,
            measured: Ghost(Set::empty()),
        }
    }

    /// What the search wants next. It stays in the range, and asks for no measurement twice.
    pub fn step(&self) -> (s: SearchStep)
        requires
            self.view().wf(),
        ensures
            s == self.view().step(),
            s matches SearchStep::Measure(b) ==> !self.view().measured.contains(b as int),
            match s {
                SearchStep::Measure(b) => self.view().low <= b <= self.view().high,
                SearchStep::Recall(b) => self.view().low <= b <= self.view().high,
                SearchStep::Done(b) => self.view().low <= b <= self.view().high,
                SearchStep::Interpolate => true,
            },
    {
        match self.stage {
            SearchStage::Base => SearchStep::Measure(0),
            SearchStage::Low => if self.low == 0 {
                SearchStep::Recall(0)
            } else {
                SearchStep::Measure(self.low)
            },
            SearchStage::High => if self.high == 0 || self.high == self.low {
                SearchStep::Recall(self.high)
            } else {
                SearchStep::Measure(self.high)
            },
            SearchStage::Window => SearchStep::Interpolate,
            SearchStage::Bisect => {
                if self.from > self.to {
                    return SearchStep::Done(
                        match self.best {
                            Some(b) => b,
                            None => self.last,
                        },
                    );
                }
                let beta: i32 = (self.from + (self.to - self.from + 1) / 2) as i32;
                if beta == 0 || beta == self.low || beta == self.high {
                    SearchStep::Recall(beta)
                } else {
                    SearchStep::Measure(beta)
                }
            },
            SearchStage::Met => SearchStep::Done(0),
        }
    }

    /// Displacement 0 was measured; `met` says whether its rate lies within the tolerance.
    pub fn base(&mut self, met: bool)
        requires
            old(self).view().wf(),
            old(self).view().stage == SearchStage::Base,
        ensures
            final(self).view().wf(),
            final(self).view() == (SearchView {
                stage: if met {
                    SearchStage::Met
                } else {
                    SearchStage::Low
                },
                measured: old(self).view().measured_next(),
                ..old(self).view()
            }),
    {
        self.measured = Ghost(self.measured@.insert(0));
        self.stage = if met { SearchStage::Met } else { SearchStage::Low };
    }

    /// The low end's rate is known.
    pub fn low_end(&mut self)
        requires
            old(self).view().wf(),
            old(self).view().stage == SearchStage::Low,
        ensures
            final(self).view().wf(),
            final(self).view() == (SearchView {
                stage: SearchStage::High,
                measured: old(self).view().measured_next(),
                ..old(self).view()
            }),
    {
        if self.low != 0 {
            self.measured = Ghost(self.measured@.insert(self.low as int));
        }
        self.stage = SearchStage::High;
    }

    /// The high end's rate is known.
    pub fn high_end(&mut self)
        requires
            old(self).view().wf(),
            old(self).view().stage == SearchStage::High,
        ensures
            final(self).view().wf(),
            final(self).view() == (SearchView {
                stage: SearchStage::Window,
                measured: old(self).view().measured_next(),
                ..old(self).view()
            }),
    {
        if self.high != 0 && self.high != self.low {
            self.measured = Ghost(self.measured@.insert(self.high as int));
        }
        self.stage = SearchStage::Window;
    }

    /// Open the window around the interpolated displacement, cut to the range.
    pub fn window(&mut self, now: i32)
        requires
            old(self).view().wf(),
            old(self).view().stage == SearchStage::Window,
        ensures
            final(self).view().wf(),
            ({
                let v = old(self).view();
                let (a, b) = (now - 100, now + 100);
                final(self).view() == (SearchView {
                    stage: SearchStage::Bisect,
                    from: if a > v.high {
                        v.high + 1
                    } else if a < v.low {
                        v.low
                    } else {
                        a
                    },
                    to: if b < v.low {
                        v.low - 1
                    } else if b > v.high {
                        v.high
                    } else {
                        b
                    },
                    best: None,
                    last: clamped(now as int, v.low, v.high) as i32,
                    ..v
                })
            }),
            final(self).view().size() <= 201,
    {
        let (a, b): (i64, i64) = (now as i64 - 100, now as i64 + 100);
        let (low, high): (i64, i64) = (self.low as i64, self.high as i64);
        self.from = if a > high {
            high + 1
        } else if a < low {
            low
        } else {
            a
        };
        self.to = if b < low {
            low - 1
        } else if b > high {
            high
        } else {
            b
        };
        self.best = None;
        self.last = if now < self.low {
            self.low
        } else if now > self.high {
            self.high
        } else {
            now
        };
        self.stage = SearchStage::Bisect;
    }

    /// The rate in the middle of the window is known. `better` says that it lies within the
    /// tolerance and beats the best so far; `above` that the search goes on below it.
    pub fn narrow(&mut self, better: bool, above: bool)
        requires
            old(self).view().wf(),
            old(self).view().stage == SearchStage::Bisect,
            old(self).view().size() > 0,
        ensures
            final(self).view().wf(),
            ({
                let v = old(self).view();
                let beta = v.middle();
                final(self).view() == (SearchView {
                    from: if above {
                        v.from
                    } else {
                        beta + 1
                    },
                    to: if above {
                        beta - 1
                    } else {
                        v.to
                    },
                    best: if better {
                        Some(beta as i32)
                    } else {
                        v.best
                    },
                    last: beta as i32,
                    measured: v.measured_next(),
                    ..v
                })
            }),
            final(self).view().size() <= old(self).view().size() / 2,
    {
        let beta: i64 = self.from + (self.to - self.from + 1) / 2;
        if better {
            self.best = Some(beta as i32);
        }
        if beta != 0 && beta != self.low as i64 && beta != self.high as i64 {
            self.measured = Ghost(self.measured@.insert(beta as int));
        }
        if above {
            self.to = beta - 1;
        } else {
            self.from = beta + 1;
        }
        self.last = beta as i32;
    }
}

/// How often a window of `n` displacements can be halved before it is empty.
pub open spec fn halvings(n: int) -> int
    decreases n,
{
    if n <= 0 {
        0
    } else {
        1 + halvings(n / 2)
    }
}

/// A larger window is halved at least as often.
proof fn lemma_halvings(a: int, b: int)
    requires
        a <= b,
    ensures
        0 <= halvings(a) <= halvings(b),
    decreases b,
{
    if b > 0 {
        if a > 0 {
            lemma_halvings(a / 2, b / 2);
        } else {
            lemma_halvings(0, b / 2);
        }
    }
}

/// Every look at the middle of the window leaves fewer to come.
pub proof fn law_bisection_progresses(size: int, next: int)
    requires
        size > 0,
        next <= size / 2,
    ensures
        halvings(next) < halvings(size),
{
    lemma_halvings(next, size / 2);
}

/// A window of 201 displacements, the largest that a search opens, takes at most eight looks.
pub proof fn law_window_takes_eight(size: int)
    requires
        size <= 201,
    ensures
        halvings(size) <= 8,
{
    lemma_halvings(size, 201);
    reveal_with_fuel(halvings, 10);
}

/// The search for the model whose rate at displacement 0 is relatively closest to the target. The
/// caller codes the picture with the model that is asked for and tells whether its rate is closer
/// than every one before it.
pub struct ModelSearch {
    measured: usize,
    best: usize,
    answers: Ghost<Seq<bool>>,
}

impl View for ModelSearch {
    type V = Seq<bool>;

    /// What the caller told of each model, in their order.
    closed spec fn view(&self) -> Seq<bool> {
        self.answers@
    }
}

/// The model that came last among those that were closer than every one before them; the first
/// where there is none.
pub open spec fn spec_closest(answers: Seq<bool>) -> int
    decreases answers.len(),
{
    if answers.len() == 0 {
        0
    } else if answers.last() {
        answers.len() - 1
    } else {
        spec_closest(answers.drop_last())
    }
}

/// What a rate-matched encode settles on.
#[derive(Clone, Copy, Debug, PartialEq, Eq, Structural)]
pub struct Settled {
    pub model_id: u8,
    /// The displacement that the codestream carries.
    pub beta_displacement_log: i32,
    /// How often the picture was coded.
    pub trials: usize,
}

impl ModelSearch {
    /// No more answers than there are models.
    pub closed spec fn wf(&self) -> bool {
        &&& self.measured == self.answers@.len() <= NUM_MODELS
        &&& self.best == spec_closest(self.answers@)
        &&& self.best < NUM_MODELS
    }

    /// A search that has measured nothing.
    pub fn new() -> (s: Self)
        ensures
            s.wf(),
            s@ == Seq::<bool>::empty(),
    {
        ModelSearch { measured: 0, best: 0, answers: Ghost(Seq::empty()) }
    }

    /// The model to measure next, if one is left.
    pub fn model(&self) -> (id: Option<usize>)
        requires
            self.wf(),
        ensures
            id == if self@.len() < NUM_MODELS {
                Some(self@.len() as usize)
            } else {
                None
            },
    {
        if self.measured < NUM_MODELS {
            Some(self.measured)
        } else {
            None
        }
    }

    /// Take in whether the model that was asked for is closer than every one before it.
    pub fn record(&mut self, closer: bool)
        requires
            old(self).wf(),
            old(self)@.len() < NUM_MODELS,
        ensures
            final(self).wf(),
            final(self)@ == old(self)@.push(closer),
    {
        if closer {
            self.best = self.measured;
        }
        self.measured = self.measured + 1;
        self.answers = Ghost(self.answers@.push(closer));
        proof {
            assert(self.answers@.drop_last() =~= old(self).answers@);
        }
    }

    /// The closest of the models that were measured.
    pub fn best(&self) -> (id: usize)
        requires
            self.wf(),
        ensures
            id == spec_closest(self@),
            id < NUM_MODELS,
    {
        self.best
    }

    /// The displacements to search with that model.
    pub fn range(&self) -> (r: (i32, i32))
        requires
            self.wf(),
        ensures
            r == BDL_SEARCH_RANGE@[spec_closest(self@)],
            r.0 < 0 < r.1,
    {
        BDL_SEARCH_RANGE[self.best]
    }

    /// What the encode settles on once displacement `beta` won and the picture was coded at
    /// `displaced` others on the way: a codestream for each of these, for each model, and the last.
    pub fn settle(&self, beta: i32, displaced: usize) -> (s: Settled)
        requires
            self.wf(),
            displaced < usize::MAX - NUM_MODELS,
        ensures
            s == (Settled {
                model_id: spec_closest(self@) as u8,
                beta_displacement_log: params::clamped(beta as int, -1069, 702) as i32,
                trials: (self@.len() + displaced + 1) as usize,
            }),
    {
        Settled {
            model_id: self.best as u8,
            beta_displacement_log: clip_beta(beta),
            trials: self.measured + displaced + 1,
        }
    }
}

/// The model that is chosen was closer than every one before it, and none after it was.
pub proof fn law_closest_model_wins(answers: Seq<bool>, id: int)
    requires
        0 <= id < answers.len(),
        answers[0],
    ensures
        0 <= spec_closest(answers) < answers.len(),
        answers[spec_closest(answers)],
        spec_closest(answers) < id ==> !answers[id],
    decreases answers.len(),
{
    if !answers.last() {
        let before = answers.drop_last();
        if id == before.len() {
            law_closest_model_wins(before, 0);
        } else {
            law_closest_model_wins(before, id);
        }
    }
}

} // verus!
