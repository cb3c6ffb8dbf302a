//! The scene: a list of primitives, scanned for the nearest surface that a
//! ray meets.
//!
//! The primitives are asked one after another, in the order in which they
//! were added. Each is asked only for a hit nearer than the nearest found
//! so far, so whichever hit is reported last is the nearest of all. How a
//! primitive is intersected, and what a hit or a distance is, is up to the
//! caller.

use vstd::prelude::*;

verus! {

/// The last hit in a run of answers, if any answer was a hit.
pub open spec fn last_hit<H>(answers: Seq<Option<H>>) -> Option<H>
    decreases answers.len(),
{
    if answers.len() == 0 {
        None
    } else if answers.last().is_some() {
        answers.last()
    } else {
        last_hit(answers.drop_last())
    }
}

/// `answers` and `bounds` record a scan of `primitives`: the scan starts
/// with the bound `limit`; primitive `k` was asked for a hit within
/// `bounds[k]` and gave `answers[k]`; a hit replaces the bound by the
/// distance of that hit, a miss leaves it as it was.
pub open spec fn is_scan<P, H, B, FP: Fn(&P, &B) -> Option<H>, FD: Fn(&H) -> B>(
    primitives: Seq<P>,
    probe: FP,
    distance: FD,
    limit: B,
    answers: Seq<Option<H>>,
    bounds: Seq<B>,
) -> bool {
    &&& answers.len() == primitives.len()
    &&& bounds.len() == primitives.len() + 1
    &&& bounds[0] == limit
    &&& forall|k: int|
        0 <= k < primitives.len() ==> call_ensures(
            probe,
            (&primitives[k], &bounds[k]),
            #[trigger] answers[k],
        )
    &&& forall|k: int|
        0 <= k < primitives.len() ==> match #[trigger] answers[k] {
            Some(h) => call_ensures(distance, (&h,), bounds[k + 1]),
            None => bounds[k + 1] == bounds[k],
        }
}

/// The primitives of a scene, in the order in which they were added.
#[derive(Clone, Debug)]
pub struct HittableList<P> {
    list: Vec<P>,
}

impl<P> View for HittableList<P> {
    type V = Seq<P>;

    closed spec fn view(&self) -> Seq<P> {
        self.list@
    }
}

impl<P> HittableList<P> {
    /// A scene without primitives.
    pub fn new() -> (scene: HittableList<P>)
        ensures
            scene@ == Seq::<P>::empty(),
    {
        HittableList { list: Vec::new() }
    }

    /// Adds a primitive behind those that the scene holds.
    pub fn add(&mut self, object: P)
        ensures
            final(self)@ == old(self)@.push(object),
    {
        self.list.push(object);
    }

    /// Removes every primitive.
    pub fn clear(&mut self)
        ensures
            final(self)@ == Seq::<P>::empty(),
    {
        self.list.clear();
    }

    /// Number of primitives in the scene.
    pub fn len(&self) -> (n: usize)
        ensures
            n == self@.len(),
    {
        self.list.len()
    }

    /// Asks the primitives in turn for the nearest hit.
    ///
    /// `probe(primitive, bound)` intersects a primitive and reports a hit
    /// only if it lies within `bound`; `distance` tells how far a hit lies.
    /// The first primitive is asked with the bound `limit`, each later one
    /// with the distance of the last hit reported before it. The result is
    /// the last hit that any primitive reported, and `None` if none
    /// reported one.
    pub fn hit<H, B, FP: Fn(&P, &B) -> Option<H>, FD: Fn(&H) -> B>(
        &self,
        limit: B,
        probe: &FP,
        distance: &FD,
    ) -> (best: Option<H>)
        requires
            forall|p: P, b: B| #[trigger] call_requires(*probe, (&p, &b)),
            forall|h: H| #[trigger] call_requires(*distance, (&h,)),
        ensures
            exists|answers: Seq<Option<H>>, bounds: Seq<B>| #[trigger]
                is_scan(self@, *probe, *distance, limit, answers, bounds) && best == last_hit(
                    answers,
                ),
    {
        let mut best: Option<H> = None;
        let mut bound: B = limit;
        let ghost mut answers: Seq<Option<H>> = Seq::empty();
        let ghost mut bounds: Seq<B> = seq![limit];
        let mut k: usize = 0;
        while k < self.list.len()
            invariant
                forall|p: P, b: B| #[trigger] call_requires(*probe, (&p, &b)),
                forall|h: H| #[trigger] call_requires(*distance, (&h,)),
                k <= self.list@.len(),
                is_scan(self.list@.take(k as int), *probe, *distance, limit, answers, bounds),
                bounds[k as int] == bound,
                best == last_hit(answers),
            decreases self.list@.len() - k,
        {
            let answer = probe(&self.list[k], &bound);
            let ghost answers_before = answers;
            let ghost bounds_before = bounds;
            match answer {
                Some(h) => {
                    bound = distance(&h);
                    proof {
                        answers = answers.push(Some(h));
                        bounds = bounds.push(bound);
                    }
                    best = Some(h);
                },
                None => {
                    proof {
                        answers = answers.push(None);
                        bounds = bounds.push(bound);
                    }
                },
            }
            proof {
                let asked = self.list@.take(k + 1);
                assert(answers.drop_last() =~= answers_before);
                assert forall|n: int| 0 <= n < k + 1 implies call_ensures(
                    *probe,
                    (&asked[n], &bounds[n]),
                    #[trigger] answers[n],
                ) by {
                    if n < k {
                        assert(asked[n] == self.list@.take(k as int)[n]);
                        assert(answers[n] == answers_before[n]);
                        assert(bounds[n] == bounds_before[n]);
                    }
                }
                assert forall|n: int| 0 <= n < k + 1 implies match #[trigger] answers[n] {
                    Some(h) => call_ensures(*distance, (&h,), bounds[n + 1]),
                    None => bounds[n + 1] == bounds[n],
                } by {
                    if n < k {
                        assert(answers[n] == answers_before[n]);
                        assert(bounds[n] == bounds_before[n]);
                        assert(bounds[n + 1] == bounds_before[n + 1]);
                    }
                }
            }
            k += 1;
        }
        assert(self.list@.take(k as int) =~= self@);
        assert(is_scan(self@, *probe, *distance, limit, answers, bounds));
        best
    }
}

impl<P> Default for HittableList<P> {
    /// A scene without primitives.
    fn default() -> (scene: HittableList<P>)
        ensures
            scene@ == Seq::<P>::empty(),
    {
        HittableList { list: Vec::new() }
    }
}

/// A scan finds nothing exactly when no primitive reports a hit.
pub proof fn lemma_no_hit_iff_all_miss<H>(answers: Seq<Option<H>>)
    ensures
        last_hit(answers).is_none() <==> forall|k: int|
            0 <= k < answers.len() ==> (#[trigger] answers[k]).is_none(),
    decreases answers.len(),
{
    if answers.len() > 0 {
        let shorter = answers.drop_last();
        lemma_no_hit_iff_all_miss(shorter);
        if answers.last().is_none() {
            if forall|k: int| 0 <= k < shorter.len() ==> (#[trigger] shorter[k]).is_none() {
                assert forall|k: int| 0 <= k < answers.len() implies (
                #[trigger] answers[k]).is_none() by {
                    if k < shorter.len() {
                        assert(shorter[k].is_none());
                    }
                }
            } else {
                let k = choose|k: int| 0 <= k < shorter.len() && !(#[trigger] shorter[k]).is_none();
                assert(!answers[k].is_none());
            }
        } else {
            assert(!answers[answers.len() - 1].is_none());
        }
    }
}

/// The hit that a scan returns was reported by a primitive, and every
/// primitive after that one reported none.
pub proof fn lemma_last_hit_position<H>(answers: Seq<Option<H>>) -> (at: int)
    requires
        last_hit(answers).is_some(),
    ensures
        0 <= at < answers.len(),
        answers[at] == last_hit(answers),
        forall|k: int| at < k < answers.len() ==> (#[trigger] answers[k]).is_none(),
    decreases answers.len(),
{
    if answers.last().is_some() {
        answers.len() - 1
    } else {
        let shorter = answers.drop_last();
        let at = lemma_last_hit_position(shorter);
        assert forall|k: int| at < k < answers.len() implies (#[trigger] answers[k]).is_none() by {
            if k < shorter.len() {
                assert(shorter[k].is_none());
            }
        }
        at
    }
}

/// The bound of a scan never grows. Let `nearer` be a transitive "lies
/// nearer than", and let every primitive have reported only hits nearer
/// than the bound it was asked with. Then the bound after any primitive is
/// the bound before an earlier one, or nearer than it: the hit that the
/// scan returns is the nearest that was reported.
pub proof fn lemma_bound_only_shrinks<P, H, B, FP: Fn(&P, &B) -> Option<H>, FD: Fn(&H) -> B>(
    primitives: Seq<P>,
    probe: FP,
    distance: FD,
    limit: B,
    answers: Seq<Option<H>>,
    bounds: Seq<B>,
    nearer: spec_fn(B, B) -> bool,
    earlier: int,
    later: int,
)
    requires
        is_scan(primitives, probe, distance, limit, answers, bounds),
        forall|x: B, y: B, z: B| #[trigger] nearer(x, y) && #[trigger] nearer(y, z) ==> nearer(x, z),
        forall|k: int|
            0 <= k < primitives.len() && (#[trigger] answers[k]).is_some() ==> nearer(
                bounds[k + 1],
                bounds[k],
            ),
        0 <= earlier <= later <= primitives.len(),
    ensures
        bounds[later] == bounds[earlier] || nearer(bounds[later], bounds[earlier]),
    decreases later - earlier,
{
    if earlier < later {
        lemma_bound_only_shrinks(
            primitives,
            probe,
            distance,
            limit,
            answers,
            bounds,
            nearer,
            earlier,
            later - 1,
        );
        let k = later - 1;
        if answers[k].is_some() {
            assert(nearer(bounds[k + 1], bounds[k]));
        } else {
            assert(bounds[k + 1] == bounds[k]);
        }
    }
}

} // verus!
