//! Depth-first resolution of a sitemap hierarchy as a state machine.
//!
//! The machine never fetches anything itself. `step` either makes progress on
//! its own (records a page, finishes a sitemap) or asks its driver to fetch a
//! sitemap; the driver then hands the fetched text to `feed`. Sitemaps are walked
//! in the order a recursive walk would take: seeds in the order given, and the
//! references of each document in document order, descending into a nested
//! sitemap as soon as it is met. A nested reference that names a sitemap already
//! being walked on the current path is reported as a cycle and skipped.
use vstd::prelude::*;
use crate::discovered::DiscoveredSet;
use crate::sitemap::{extract_locs, is_nested_sitemap, is_sitemap_ref, locs_of};

verus! {

/// A sitemap whose references are being walked.
pub struct FrameView {
    pub url: Seq<char>,
    pub refs: Seq<Seq<char>>,
    /// Index of the next reference to take.
    pub next: nat,
}

pub struct ResolverView {
    pub seeds: Seq<Seq<char>>,
    /// Index of the next seed to start.
    pub next_seed: nat,
    /// The current path, outermost sitemap first.
    pub frames: Seq<FrameView>,
    /// The sitemap whose text the machine waits for.
    pub awaiting: Option<Seq<char>>,
    pub found: Set<Seq<char>>,
}

pub enum StepView {
    Fetch(Seq<char>),
    Progress,
    Cycle(Seq<char>),
    Done,
}

/// What the driver is to do after a step.
pub enum Step {
    /// Fetch this sitemap and hand its text to `feed`.
    Fetch(String),
    /// Nothing to do outside: step again.
    Progress,
    /// This nested sitemap is already on the current path; it was skipped.
    Cycle(String),
    /// Every seed has been resolved.
    Done,
}

impl View for Step {
    type V = StepView;

    open spec fn view(&self) -> StepView {
        match self {
            Step::Fetch(u) => StepView::Fetch(u@),
            Step::Progress => StepView::Progress,
            Step::Cycle(u) => StepView::Cycle(u@),
            Step::Done => StepView::Done,
        }
    }
}

/// The URLs of the sitemaps on the current path.
pub open spec fn path_of(frames: Seq<FrameView>) -> Seq<Seq<char>> {
    frames.map_values(|f: FrameView| f.url)
}

/// One step of the machine from a state that waits for no text.
pub open spec fn step_spec(v: ResolverView) -> (ResolverView, StepView) {
    if v.frames.len() == 0 {
        if v.next_seed < v.seeds.len() {
            let u = v.seeds[v.next_seed as int];
            (ResolverView { next_seed: v.next_seed + 1, awaiting: Some(u), ..v }, StepView::Fetch(u))
        } else {
            (v, StepView::Done)
        }
    } else {
        let top = v.frames.last();
        if top.next >= top.refs.len() {
            (ResolverView { frames: v.frames.drop_last(), ..v }, StepView::Progress)
        } else {
            let r = top.refs[top.next as int];
            let frames = v.frames.update(
                v.frames.len() - 1,
                FrameView { next: top.next + 1, ..top },
            );
            if !is_sitemap_ref(r) {
                (ResolverView { frames, found: v.found.insert(r), ..v }, StepView::Progress)
            } else if path_of(v.frames).contains(r) {
                (ResolverView { frames, ..v }, StepView::Cycle(r))
            } else {
                (ResolverView { frames, awaiting: Some(r), ..v }, StepView::Fetch(r))
            }
        }
    }
}

/// The state after the awaited sitemap's text `doc` arrives: its references
/// become the innermost sitemap of the path.
pub open spec fn feed_spec(v: ResolverView, doc: Seq<char>) -> ResolverView {
    ResolverView {
        frames: v.frames.push(FrameView { url: v.awaiting->0, refs: locs_of(doc), next: 0 }),
        awaiting: None,
        ..v
    }
}

struct Frame {
    url: String,
    refs: Vec<String>,
    next: usize,
}

impl Frame {
    closed spec fn view(&self) -> FrameView {
        FrameView { url: self.url@, refs: self.refs.deep_view(), next: self.next as nat }
    }
}

pub struct Resolver {
    seeds: Vec<String>,
    next_seed: usize,
    frames: Vec<Frame>,
    awaiting: Option<String>,
    found: DiscoveredSet,
}

impl View for Resolver {
    type V = ResolverView;

    closed spec fn view(&self) -> ResolverView {
        ResolverView {
            seeds: self.seeds.deep_view(),
            next_seed: self.next_seed as nat,
            frames: self.frames@.map_values(|f: Frame| f.view()),
            awaiting: match self.awaiting {
                Some(u) => Some(u@),
                None => None,
            },
            found: self.found@,
        }
    }
}

impl Resolver {
    pub closed spec fn wf(&self) -> bool {
        &&& self.found.wf()
        &&& self.next_seed <= self.seeds.len()
        &&& forall|i: int| 0 <= i < self.frames.len() ==> #[trigger] self.frames[i].next <= self.frames[i].refs.len()
    }

    /// A machine that will resolve `seeds` in order, with nothing found yet.
    pub fn new(seeds: Vec<String>) -> (r: Resolver)
        ensures
            r.wf(),
            r@ == (ResolverView {
                seeds: seeds.deep_view(),
                next_seed: 0,
                frames: seq![],
                awaiting: None,
                found: Set::empty(),
            }),
    {
        let r = Resolver {
            seeds,
            next_seed: 0,
            frames: Vec::new(),
            awaiting: None,
            found: DiscoveredSet::new(),
        };
        assert(r@.frames =~= seq![]);
        r
    }

    /// Whether the machine waits for the text of a sitemap it asked for.
    pub fn is_waiting(&self) -> (r: bool)
        ensures
            r == self@.awaiting is Some,
    {
        self.awaiting.is_some()
    }

    fn on_path(&self, url: &String) -> (r: bool)
        ensures
            r == path_of(self@.frames).contains(url@),
    {
        let ghost path = path_of(self@.frames);
        let mut i: usize = 0;
        while i < self.frames.len()
            invariant
                i <= self.frames.len(),
                path == path_of(self@.frames),
                path.len() == self.frames.len(),
                forall|j: int| 0 <= j < i ==> path[j] != url@,
            decreases self.frames.len() - i,
        {
            assert(path[i as int] == self.frames[i as int].url@);
            if self.frames[i].url == *url {
                return true;
            }
            i = i + 1;
        }
        false
    }

    /// Makes one step, as `step_spec` states.
    pub fn step(&mut self) -> (r: Step)
        requires
            old(self).wf(),
            old(self)@.awaiting is None,
        ensures
            final(self).wf(),
            (final(self)@, r@) == step_spec(old(self)@),
    {
        let ghost v = self@;
        let n = self.frames.len();
        if n == 0 {
            if self.next_seed < self.seeds.len() {
                let u = self.seeds[self.next_seed].clone();
                self.next_seed = self.next_seed + 1;
                self.awaiting = Some(u.clone());
                assert(self@.frames =~= v.frames);
                return Step::Fetch(u);
            }
            return Step::Done;
        }
        let mut top = self.frames.pop().unwrap();
        if top.next >= top.refs.len() {
            assert(self@.frames =~= v.frames.drop_last());
            return Step::Progress;
        }
        let r = top.refs[top.next].clone();
        top.next = top.next + 1;
        self.frames.push(top);
        let ghost frames = v.frames.update(
            v.frames.len() - 1,
            FrameView { next: v.frames.last().next + 1, ..v.frames.last() },
        );
        assert(self@.frames =~= frames);
        if !is_nested_sitemap(r.as_str()) {
            self.found.insert(r);
            return Step::Progress;
        }
        assert(path_of(self@.frames) =~= path_of(v.frames));
        if self.on_path(&r) {
            return Step::Cycle(r);
        }
        self.awaiting = Some(r.clone());
        Step::Fetch(r)
    }

    /// Hands the machine the text of the sitemap it waits for.
    pub fn feed(&mut self, doc: &str)
        requires
            old(self).wf(),
            old(self)@.awaiting is Some,
        ensures
            final(self).wf(),
            final(self)@ == feed_spec(old(self)@, doc@),
    {
        let ghost v = self@;
        let url = self.awaiting.take().unwrap();
        let refs = extract_locs(doc);
        self.frames.push(Frame { url, refs, next: 0 });
        assert(self@.frames =~= feed_spec(v, doc@).frames);
    }

    /// The pages found so far.
    pub fn found(&self) -> (r: &DiscoveredSet)
        ensures
            r@ == self@.found,
            r.wf() <== self.wf(),
    {
        &self.found
    }
}

/// A document that lists the same page twice in a row adds that page once:
/// after both references are taken, the found set is the old one with the page
/// added, as after the first alone.
pub proof fn lemma_page_listed_twice(v: ResolverView)
    requires
        v.frames.len() > 0,
        v.frames.last().next + 1 < v.frames.last().refs.len(),
        v.frames.last().refs[v.frames.last().next as int] == v.frames.last().refs[v.frames.last().next + 1int],
        !is_sitemap_ref(v.frames.last().refs[v.frames.last().next as int]),
    ensures
        step_spec(step_spec(v).0).0.found == v.found.insert(v.frames.last().refs[v.frames.last().next as int]),
        step_spec(step_spec(v).0).0.found == step_spec(v).0.found,
        step_spec(v).1 == StepView::Progress,
        step_spec(step_spec(v).0).1 == StepView::Progress,
{
    let u = v.frames.last().refs[v.frames.last().next as int];
    let w = step_spec(v).0;
    assert(w.frames.last().next == v.frames.last().next + 1);
    assert(w.frames.last().refs == v.frames.last().refs);
    assert(w.found.insert(u) =~= w.found);
}

/// A driver's run in spec: on `Fetch(u)` the text `site[u]` arrives, on
/// `Progress` the machine steps again, and `Cycle` or `Done` ends the run; at
/// most `fuel` steps are taken.
pub open spec fn drive(v: ResolverView, site: Map<Seq<char>, Seq<char>>, fuel: nat) -> ResolverView
    decreases fuel,
{
    if fuel == 0 {
        v
    } else {
        let (w, s) = step_spec(v);
        match s {
            StepView::Fetch(u) => drive(feed_spec(w, site[u]), site, (fuel - 1) as nat),
            StepView::Progress => drive(w, site, (fuel - 1) as nat),
            _ => w,
        }
    }
}

/// The state of a machine built on `seeds`, before its first step.
pub open spec fn initial(seeds: Seq<Seq<char>>) -> ResolverView {
    ResolverView { seeds, next_seed: 0, frames: seq![], awaiting: None, found: Set::empty() }
}

proof fn lemma_walk_pages(v: ResolverView, site: Map<Seq<char>, Seq<char>>, fuel: nat)
    requires
        v.frames.len() > 0,
        v.frames.last().next <= v.frames.last().refs.len(),
        forall|i: int| v.frames.last().next <= i < v.frames.last().refs.len() ==> !is_sitemap_ref(#[trigger] v.frames.last().refs[i]),
    ensures
        drive(v, site, (fuel + (v.frames.last().refs.len() - v.frames.last().next)) as nat) == drive(
            ResolverView {
                frames: v.frames.update(
                    v.frames.len() - 1,
                    FrameView { next: v.frames.last().refs.len(), ..v.frames.last() },
                ),
                found: v.found + v.frames.last().refs.subrange(v.frames.last().next as int, v.frames.last().refs.len() as int).to_set(),
                ..v
            },
            site,
            fuel,
        ),
    decreases v.frames.last().refs.len() - v.frames.last().next,
{
    let top = v.frames.last();
    let rest = top.refs.subrange(top.next as int, top.refs.len() as int);
    if top.next == top.refs.len() {
        assert(rest.to_set() =~= Set::empty());
        assert(v.found + rest.to_set() =~= v.found);
        assert(v.frames.update(v.frames.len() - 1, FrameView { next: top.refs.len(), ..top }) =~= v.frames);
    } else {
        let k = (top.refs.len() - top.next) as nat;
        let w = step_spec(v).0;
        let r = top.refs[top.next as int];
        assert(drive(v, site, fuel + k) == drive(w, site, (fuel + k - 1) as nat));
        lemma_walk_pages(w, site, fuel);
        let rest2 = top.refs.subrange(top.next + 1int, top.refs.len() as int);
        assert(rest =~= seq![r] + rest2);
        assert(rest.to_set() =~= rest2.to_set().insert(r)) by {
            assert forall|x: Seq<char>| rest.contains(x) <==> rest2.contains(x) || x == r by {
                if rest.contains(x) {
                    let i = choose|i: int| 0 <= i < rest.len() && rest[i] == x;
                    if i > 0 {
                        assert(rest2[i - 1] == x);
                    }
                }
                if rest2.contains(x) {
                    let i = choose|i: int| 0 <= i < rest2.len() && rest2[i] == x;
                    assert(rest[i + 1] == x);
                }
                if x == r {
                    assert(rest[0] == x);
                }
            }
        }
        assert(w.found + rest2.to_set() =~= v.found + rest.to_set());
        assert(w.frames.update(w.frames.len() - 1, FrameView { next: top.refs.len(), ..w.frames.last() })
            =~= v.frames.update(v.frames.len() - 1, FrameView { next: top.refs.len(), ..top }));
    }
}

/// Resolution descends through nested indexes: when seed `a` lists only `b`,
/// `b` lists only `c`, and `c` lists pages alone, resolving `a` finds exactly the
/// pages listed in `c`, and then ends.
pub proof fn lemma_chain_of_three(
    a: Seq<char>,
    b: Seq<char>,
    c: Seq<char>,
    site: Map<Seq<char>, Seq<char>>,
)
    requires
        is_sitemap_ref(b),
        is_sitemap_ref(c),
        b != a,
        c != a,
        c != b,
        site.dom().contains(a),
        site.dom().contains(b),
        site.dom().contains(c),
        locs_of(site[a]) == seq![b],
        locs_of(site[b]) == seq![c],
        forall|i: int| 0 <= i < locs_of(site[c]).len() ==> !is_sitemap_ref(#[trigger] locs_of(site[c])[i]),
    ensures
        drive(initial(seq![a]), site, (locs_of(site[c]).len() + 7) as nat).found == locs_of(site[c]).to_set(),
        step_spec(drive(initial(seq![a]), site, (locs_of(site[c]).len() + 7) as nat)).1 == StepView::Done,
{
    let pages = locs_of(site[c]);
    let n = pages.len();
    let fa = FrameView { url: a, refs: seq![b], next: 0 };
    let fb = FrameView { url: b, refs: seq![c], next: 0 };
    let fc = FrameView { url: c, refs: pages, next: 0 };
    let v0 = initial(seq![a]);
    let v1 = ResolverView { next_seed: 1, frames: seq![fa], ..v0 };
    assert(drive(v0, site, n + 7) == drive(v1, site, n + 6));
    let fa1 = FrameView { next: 1, ..fa };
    assert(path_of(seq![fa]) =~= seq![a]);
    let v2 = ResolverView { frames: seq![fa1, fb], ..v1 };
    assert(seq![fa].update(0, fa1) =~= seq![fa1]);
    assert(seq![fa1].push(fb) =~= seq![fa1, fb]);
    assert(drive(v1, site, n + 6) == drive(v2, site, n + 5));
    let fb1 = FrameView { next: 1, ..fb };
    assert(path_of(seq![fa1, fb]) =~= seq![a, b]);
    let v3 = ResolverView { frames: seq![fa1, fb1, fc], ..v1 };
    assert(seq![fa1, fb].update(1, fb1) =~= seq![fa1, fb1]);
    assert(seq![fa1, fb1].push(fc) =~= seq![fa1, fb1, fc]);
    assert(drive(v2, site, n + 5) == drive(v3, site, n + 4));
    lemma_walk_pages(v3, site, 4);
    let fc1 = FrameView { next: n, ..fc };
    assert(pages.subrange(0, n as int) =~= pages);
    let found = Set::<Seq<char>>::empty() + pages.to_set();
    assert(found =~= pages.to_set());
    let v4 = ResolverView { frames: seq![fa1, fb1, fc1], found, ..v1 };
    assert(seq![fa1, fb1, fc].update(2, fc1) =~= seq![fa1, fb1, fc1]);
    assert(drive(v3, site, n + 4) == drive(v4, site, 4));
    let v5 = ResolverView { frames: seq![fa1, fb1], ..v4 };
    assert(seq![fa1, fb1, fc1].drop_last() =~= seq![fa1, fb1]);
    assert(drive(v4, site, 4) == drive(v5, site, 3));
    let v6 = ResolverView { frames: seq![fa1], ..v4 };
    assert(seq![fa1, fb1].drop_last() =~= seq![fa1]);
    assert(drive(v5, site, 3) == drive(v6, site, 2));
    let v7 = ResolverView { frames: seq![], ..v4 };
    assert(seq![fa1].drop_last() =~= Seq::<FrameView>::empty());
    assert(drive(v6, site, 2) == drive(v7, site, 1));
    assert(drive(v7, site, 1) == v7);
}

/// The found set only grows: no step and no arrival of text removes a page.
pub proof fn lemma_found_grows(v: ResolverView, doc: Seq<char>)
    ensures
        v.found.subset_of(step_spec(v).0.found),
        feed_spec(v, doc).found == v.found,
{
}

} // verus!
