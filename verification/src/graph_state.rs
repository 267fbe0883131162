//! Bookkeeping for the graph data that is loaded over time.
//!
//! A request names the time ranges it wants; the state remembers which
//! ranges are already loaded, works out what is still missing, and plans the
//! load for exactly that missing part.

use vstd::prelude::*;

verus! {

/// One candlestick sampling interval.
#[derive(Clone, Copy, Debug, PartialEq, Eq, Structural)]
pub enum Interval {
    Minute,
    Hour,
    Day,
}

/// A closed range of timestamps: every `t` with `start <= t <= end`.
#[derive(Clone, Copy, Debug, PartialEq, Eq, Structural)]
pub struct Bounds {
    pub start: u64,
    pub end: u64,
}

/// Whether some range in the run covers the point `t`.
pub open spec fn seq_covers(s: Seq<Bounds>, t: int) -> bool {
    exists|i: int| 0 <= i < s.len() && (#[trigger] s[i]).start <= t <= s[i].end
}

/// Covering a point is preserved under appending a range, and an appended
/// range covers exactly its own points in addition.
proof fn lemma_seq_covers_push(s: Seq<Bounds>, x: Bounds, t: int)
    ensures
        seq_covers(s.push(x), t) <==> (seq_covers(s, t) || (x.start <= t <= x.end)),
{
    if seq_covers(s, t) {
        let i = choose|i: int| 0 <= i < s.len() && (#[trigger] s[i]).start <= t <= s[i].end;
        assert(s.push(x)[i] == s[i]);
    }
    assert(s.push(x)[s.len() as int] == x);
    if seq_covers(s.push(x), t) {
        let i = choose|i: int|
            0 <= i < s.push(x).len() && (#[trigger] s.push(x)[i]).start <= t <= s.push(x)[i].end;
        if i < s.len() {
            assert(s[i] == s.push(x)[i]);
        }
    }
}

/// A set of time ranges, read as the union of its members.
#[derive(Clone, Debug)]
pub struct BoundsSet {
    pub vals: Vec<Bounds>,
}

impl BoundsSet {
    /// Every member is a real range: its start does not pass its end.
    pub open spec fn wf(self) -> bool {
        forall|i: int|
            0 <= i < self.vals@.len() ==> (#[trigger] self.vals@[i]).start <= self.vals@[i].end
    }

    /// Whether the set covers the point `t`.
    pub open spec fn covers(self, t: int) -> bool {
        seq_covers(self.vals@, t)
    }

    /// The set with no ranges at all.
    pub fn new() -> (r: BoundsSet)
        ensures
            r.wf(),
            r.vals@.len() == 0,
            forall|t: int| !r.covers(t),
    {
        BoundsSet { vals: Vec::new() }
    }

    /// The union of the two sets: both runs of ranges, one after the other.
    pub fn merge(&self, other: &BoundsSet) -> (r: BoundsSet)
        requires
            self.wf(),
            other.wf(),
        ensures
            r.wf(),
            r.vals@ == self.vals@ + other.vals@,
            forall|t: int| #[trigger] r.covers(t) <==> (self.covers(t) || other.covers(t)),
    {
        let mut vals: Vec<Bounds> = Vec::new();
        let mut i: usize = 0;
        while i < self.vals.len()
            invariant
                i <= self.vals@.len(),
                vals@ == self.vals@.take(i as int),
            decreases self.vals@.len() - i,
        {
            vals.push(self.vals[i]);
            proof {
                assert(self.vals@.take(i + 1) =~= self.vals@.take(i as int).push(self.vals@[
                    i as int
                ]));
            }
            i += 1;
        }
        let mut k: usize = 0;
        while k < other.vals.len()
            invariant
                k <= other.vals@.len(),
                vals@ == self.vals@ + other.vals@.take(k as int),
            decreases other.vals@.len() - k,
        {
            vals.push(other.vals[k]);
            proof {
                assert(other.vals@.take(k + 1) =~= other.vals@.take(k as int).push(other.vals@[
                    k as int
                ]));
                assert(self.vals@ + other.vals@.take(k + 1) =~= (self.vals@ + other.vals@.take(
                    k as int,
                )).push(other.vals@[k as int]));
            }
            k += 1;
        }
        proof {
            assert(self.vals@.take(self.vals@.len() as int) =~= self.vals@);
            assert(other.vals@.take(other.vals@.len() as int) =~= other.vals@);
            let r = BoundsSet { vals };
            assert forall|t: int| #[trigger] seq_covers(vals@, t) <==> (seq_covers(self.vals@, t)
                || seq_covers(other.vals@, t)) by {
                if seq_covers(vals@, t) {
                    let i = choose|i: int|
                        0 <= i < vals@.len() && (#[trigger] vals@[i]).start <= t <= vals@[i].end;
                    if i < self.vals@.len() {
                        assert(self.vals@[i] == vals@[i]);
                    } else {
                        assert(other.vals@[i - self.vals@.len()] == vals@[i]);
                    }
                }
                if seq_covers(self.vals@, t) {
                    let i = choose|i: int|
                        0 <= i < self.vals@.len() && (#[trigger] self.vals@[i]).start <= t
                            <= self.vals@[i].end;
                    assert(vals@[i] == self.vals@[i]);
                }
                if seq_covers(other.vals@, t) {
                    let i = choose|i: int|
                        0 <= i < other.vals@.len() && (#[trigger] other.vals@[i]).start <= t
                            <= other.vals@[i].end;
                    assert(vals@[self.vals@.len() + i] == other.vals@[i]);
                }
            }
        }
        BoundsSet { vals }
    }

    /// The part of `self` not covered by `other`: `None` when `other`
    /// already covers all of `self`, otherwise the exact leftover, which is
    /// never empty.
    pub fn subtract(&self, other: &BoundsSet) -> (r: Option<BoundsSet>)
        requires
            self.wf(),
            other.wf(),
        ensures
            r is None ==> forall|t: int| self.covers(t) ==> other.covers(t),
            r is Some ==> r->Some_0.wf() && r->Some_0.vals@.len() > 0 && forall|t: int|
                #[trigger] r->Some_0.covers(t) <==> (self.covers(t) && !other.covers(t)),
            r is Some ==> exists|t: int| self.covers(t) && !other.covers(t),
    {
        let mut frags: Vec<Bounds> = Vec::new();
        let mut i: usize = 0;
        while i < self.vals.len()
            invariant
                i <= self.vals@.len(),
                frags@ == self.vals@.take(i as int),
            decreases self.vals@.len() - i,
        {
            frags.push(self.vals[i]);
            proof {
                assert(self.vals@.take(i + 1) =~= self.vals@.take(i as int).push(self.vals@[
                    i as int
                ]));
            }
            i += 1;
        }
        proof {
            assert(self.vals@.take(self.vals@.len() as int) =~= self.vals@);
            assert(other.vals@.take(0) =~= Seq::<Bounds>::empty());
        }
        let mut k: usize = 0;
        while k < other.vals.len()
            invariant
                self.wf(),
                other.wf(),
                k <= other.vals@.len(),
                forall|i: int|
                    0 <= i < frags@.len() ==> (#[trigger] frags@[i]).start <= frags@[i].end,
                forall|t: int|
                    #[trigger] seq_covers(frags@, t) <==> (seq_covers(self.vals@, t)
                        && !seq_covers(other.vals@.take(k as int), t)),
            decreases other.vals@.len() - k,
        {
            let b = other.vals[k];
            let ghost frags_in = frags@;
            let mut next: Vec<Bounds> = Vec::new();
            let mut j: usize = 0;
            while j < frags.len()
                invariant
                    frags@ == frags_in,
                    b.start <= b.end,
                    j <= frags@.len(),
                    forall|i: int|
                        0 <= i < frags@.len() ==> (#[trigger] frags@[i]).start <= frags@[i].end,
                    forall|i: int|
                        0 <= i < next@.len() ==> (#[trigger] next@[i]).start <= next@[i].end,
                    forall|t: int|
                        #[trigger] seq_covers(next@, t) <==> (seq_covers(
                            frags@.take(j as int),
                            t,
                        ) && !(b.start <= t <= b.end)),
                decreases frags@.len() - j,
            {
                let f = frags[j];
                let ghost next_in = next@;
                if f.end < b.start || f.start > b.end {
                    next.push(f);
                } else {
                    if f.start < b.start {
                        next.push(Bounds { start: f.start, end: b.start - 1 });
                    }
                    if f.end > b.end {
                        next.push(Bounds { start: b.end + 1, end: f.end });
                    }
                }
                proof {
                    assert(frags@.take(j + 1) =~= frags@.take(j as int).push(f));
                    assert forall|t: int| #[trigger] seq_covers(next@, t) <==> (seq_covers(
                        frags@.take(j + 1),
                        t,
                    ) && !(b.start <= t <= b.end)) by {
                        lemma_seq_covers_push(frags@.take(j as int), f, t);
                        if f.end < b.start || f.start > b.end {
                            lemma_seq_covers_push(next_in, f, t);
                        } else {
                            if f.start < b.start && f.end > b.end {
                                lemma_seq_covers_push(
                                    next_in,
                                    Bounds { start: f.start, end: (b.start - 1) as u64 },
                                    t,
                                );
                                lemma_seq_covers_push(
                                    next_in.push(Bounds { start: f.start, end: (b.start - 1) as u64 }),
                                    Bounds { start: (b.end + 1) as u64, end: f.end },
                                    t,
                                );
                            } else if f.start < b.start {
                                lemma_seq_covers_push(
                                    next_in,
                                    Bounds { start: f.start, end: (b.start - 1) as u64 },
                                    t,
                                );
                            } else if f.end > b.end {
                                lemma_seq_covers_push(
                                    next_in,
                                    Bounds { start: (b.end + 1) as u64, end: f.end },
                                    t,
                                );
                            }
                        }
                    }
                }
                j += 1;
            }
            proof {
                assert(frags@.take(frags@.len() as int) =~= frags@);
                assert(other.vals@.take(k + 1) =~= other.vals@.take(k as int).push(b));
                assert forall|t: int| #[trigger] seq_covers(next@, t) <==> (seq_covers(
                    self.vals@,
                    t,
                ) && !seq_covers(other.vals@.take(k + 1), t)) by {
                    lemma_seq_covers_push(other.vals@.take(k as int), b, t);
                }
            }
            frags = next;
            k += 1;
        }
        proof {
            assert(other.vals@.take(other.vals@.len() as int) =~= other.vals@);
        }
        if frags.len() == 0 {
            proof {
                assert forall|t: int| self.covers(t) implies other.covers(t) by {
                    assert(!seq_covers(frags@, t));
                }
            }
            None
        } else {
            let ghost fr = frags@;
            let r = BoundsSet { vals: frags };
            proof {
                let w = fr[0].start as int;
                assert(fr[0].start <= w <= fr[0].end);
                assert(seq_covers(fr, w));
                assert(self.covers(w) && !other.covers(w));
            }
            Some(r)
        }
    }
}

/// The plan for loading what a request still misses: the missing ranges,
/// the sampling step in seconds, and how many samples one page may hold.
#[derive(Clone, Debug)]
pub struct LoadingState {
    pub to_load: BoundsSet,
    pub step: usize,
    pub limit: usize,
}

impl LoadingState {
    /// A plan for the given missing ranges. There is nothing to plan — and
    /// `None` is returned — exactly when no range is missing, the step is
    /// zero, or a page may hold no samples.
    pub fn new(to_load: &BoundsSet, step: usize, limit: usize) -> (r: Option<LoadingState>)
        ensures
            r is Some <==> (to_load.vals@.len() > 0 && step > 0 && limit > 0),
            r is Some ==> r->Some_0.to_load.vals@ == to_load.vals@ && r->Some_0.step == step
                && r->Some_0.limit == limit,
    {
        if to_load.vals.len() == 0 || step == 0 || limit == 0 {
            return None;
        }
        Some(LoadingState { to_load: to_load.clone_set(), step, limit })
    }
}

impl BoundsSet {
    /// An element-for-element copy of the set.
    pub fn clone_set(&self) -> (r: BoundsSet)
        ensures
            r.vals@ == self.vals@,
    {
        let mut vals: Vec<Bounds> = Vec::new();
        let mut i: usize = 0;
        while i < self.vals.len()
            invariant
                i <= self.vals@.len(),
                vals@ == self.vals@.take(i as int),
            decreases self.vals@.len() - i,
        {
            vals.push(self.vals[i]);
            proof {
                assert(self.vals@.take(i + 1) =~= self.vals@.take(i as int).push(self.vals@[
                    i as int
                ]));
            }
            i += 1;
        }
        proof {
            assert(self.vals@.take(self.vals@.len() as int) =~= self.vals@);
        }
        BoundsSet { vals }
    }
}

/// What one data request asks for: the wanted time ranges, the sampling
/// interval, and the page size.
#[derive(Clone, Debug)]
pub struct Props {
    pub bounds: BoundsSet,
    pub interval: Interval,
    pub limit: usize,
}

/// The sampling step of an interval, in seconds.
pub open spec fn spec_step(i: Interval) -> usize {
    match i {
        Interval::Minute => 60,
        Interval::Hour => 3600,
        Interval::Day => 86400,
    }
}

/// What the graph widget knows about its data: the active loading plan, the
/// request that drove it, and the ranges that are already loaded.
#[derive(Clone, Debug)]
pub struct State {
    pub loading: LoadingState,
    pub props: Props,
    pub bounds: BoundsSet,
}

impl State {
    /// The ranges that are already loaded.
    pub open spec fn spec_bounds(self) -> BoundsSet {
        self.bounds
    }

    /// A valid state: every stored range is a real range.
    pub open spec fn wf(self) -> bool {
        &&& self.spec_bounds().wf()
        &&& self.loading.to_load.wf()
        &&& self.props.bounds.wf()
    }

    /// A state with nothing loaded, nothing planned and an empty request.
    pub fn new() -> (s: State)
        ensures
            s.wf(),
            s.spec_bounds().vals@.len() == 0,
            s.loading.to_load.vals@.len() == 0,
            s.props.bounds.vals@.len() == 0,
    {
        State {
            loading: LoadingState { to_load: BoundsSet::new(), step: 0, limit: 0 },
            props: Props { bounds: BoundsSet::new(), interval: Interval::Minute, limit: 0 },
            bounds: BoundsSet::new(),
        }
    }

    /// Takes a new request on board.
    ///
    /// What the request wants beyond the already loaded ranges becomes the
    /// new loading plan, the loaded ranges grow to the union of old and
    /// requested, and the request is stored. When the request brings nothing
    /// new, or no page can hold a sample, there is nothing to do and the
    /// state stays exactly as it was.
    pub fn apply_props(&mut self, props: &Props)
        requires
            old(self).wf(),
            props.bounds.wf(),
        ensures
            final(self).wf(),
            ((forall|t: int| props.bounds.covers(t) ==> old(self).spec_bounds().covers(t))
                || props.limit == 0) ==> *final(self) == *old(self),
            (!(forall|t: int| props.bounds.covers(t) ==> old(self).spec_bounds().covers(t))
                && props.limit > 0) ==> {
                &&& final(self).props.interval == props.interval
                &&& final(self).props.limit == props.limit
                &&& final(self).props.bounds.vals@ == props.bounds.vals@
                &&& final(self).loading.step == spec_step(props.interval)
                &&& final(self).loading.limit == props.limit
                &&& forall|t: int|
                    #[trigger] final(self).loading.to_load.covers(t) <==> (props.bounds.covers(t)
                        && !old(self).spec_bounds().covers(t))
                &&& forall|t: int|
                    #[trigger] final(self).spec_bounds().covers(t) <==> (old(
                        self,
                    ).spec_bounds().covers(t) || props.bounds.covers(t))
            },
    {
        let subtract_res = props.bounds.subtract(&self.bounds);
        if subtract_res.is_none() {
            return;
        }
        let to_load = subtract_res.unwrap();

        let loading_res = LoadingState::new(&to_load, State::step(props.interval), props.limit);
        if loading_res.is_none() {
            return;
        }
        let loading = loading_res.unwrap();

        let new_bounds = self.bounds.merge(&props.bounds);

        self.loading = loading;
        self.bounds = new_bounds;
        self.props = props.clone_props();
        proof {
            assert forall|t: int| #[trigger] self.loading.to_load.covers(t) <==> (
            props.bounds.covers(t) && !old(self).spec_bounds().covers(t)) by {
                assert(self.loading.to_load.vals@ == to_load.vals@);
                assert(seq_covers(self.loading.to_load.vals@, t) == seq_covers(to_load.vals@, t));
                assert(to_load.covers(t) == (props.bounds.covers(t) && !old(
                    self,
                ).spec_bounds().covers(t)));
            }
        }
    }

    /// How many seconds one sample of the interval spans.
    fn step(i: Interval) -> (r: usize)
        ensures
            r == spec_step(i),
    {
        match i {
            Interval::Minute => 60,
            Interval::Hour => 60 * 60,
            Interval::Day => 60 * 60 * 24,
        }
    }
}

impl Props {
    /// A field-for-field copy of the request.
    pub fn clone_props(&self) -> (r: Props)
        ensures
            r.bounds.vals@ == self.bounds.vals@,
            r.interval == self.interval,
            r.limit == self.limit,
    {
        Props { bounds: self.bounds.clone_set(), interval: self.interval, limit: self.limit }
    }
}

} // verus!
