//! Fitting the plane that most points of a cloud lie close to, by random
//! sample consensus.
//!
//! Each iteration takes three points of the cloud, lays the plane through
//! them and counts the points of the cloud that are closer to it than a
//! threshold. The plane with the most such points wins; among equals, the
//! one found first. What the fit returns is a function of the samples taken,
//! which `ransac_with_samples` takes as an argument and the others draw from
//! a `SampleSource`: `ransac` from the system's entropy, `ransac_seeded`
//! from a seed, which determines every sample that is drawn.

use rand::rngs::StdRng;
use rand::{Rng, SeedableRng};
use vstd::prelude::*;
use crate::error::CloudError;
use crate::plane3d::{
    lemma_evaluate_bound, lemma_floor_distance_decides, lemma_through_in_range, Plane, PlaneEq,
};
use crate::point3d::Point3D;
use crate::point_cloud::PointCloud;

verus! {

/// Three places in a cloud: the points there are to determine a plane.
#[derive(Debug, Clone, Copy, PartialEq, Eq, Structural)]
pub struct Sample {
    pub first: usize,
    pub second: usize,
    pub third: usize,
}

impl Sample {
    /// All three places exist in a cloud of `size` points.
    pub open spec fn within(self, size: nat) -> bool {
        self.first < size && self.second < size && self.third < size
    }

    /// The plane through the three sampled points.
    pub open spec fn plane(self, points: Seq<Point3D>) -> PlaneEq {
        PlaneEq::through(
            points[self.first as int].position(),
            points[self.second as int].position(),
            points[self.third as int].position(),
        )
    }

    /// The three points lie on one line, or two of them coincide: they
    /// determine no plane.
    pub open spec fn is_degenerate(self, points: Seq<Point3D>) -> bool {
        self.plane(points).is_degenerate()
    }

    /// The point equals one of the three sampled points, field by field.
    pub open spec fn is_seed(self, points: Seq<Point3D>, p: Point3D) -> bool {
        p == points[self.first as int] || p == points[self.second as int] || p
            == points[self.third as int]
    }

    /// The test by which a point supports the sample's plane: it is none of
    /// the three sampled points, and its distance to the plane is less than
    /// the threshold.
    pub open spec fn supports(self, points: Seq<Point3D>, threshold: nat) -> spec_fn(
        Point3D,
    ) -> bool {
        |p: Point3D| !self.is_seed(points, p) && self.plane(points).closer_than(
            p.position(),
            threshold,
        )
    }

    /// The inliers of the sample's plane, in the order of the cloud.
    pub open spec fn inliers(self, points: Seq<Point3D>, threshold: nat) -> Seq<Point3D> {
        points.filter(self.supports(points, threshold))
    }
}

/// Every sample has its three places in a cloud of `size` points.
pub open spec fn all_within(samples: Seq<Sample>, size: nat) -> bool {
    forall|i: int| 0 <= i < samples.len() ==> (#[trigger] samples[i]).within(size)
}

/// The sample that is best after the given samples were tried in turn, or
/// `None` where none of them determined a plane. A degenerate sample is
/// passed over. Another takes the place of the best so far only with
/// strictly more inliers.
pub open spec fn best_after(points: Seq<Point3D>, threshold: nat, samples: Seq<Sample>) -> Option<
    Sample,
>
    decreases samples.len(),
{
    if samples.len() == 0 {
        None
    } else {
        let earlier = best_after(points, threshold, samples.drop_last());
        let sample = samples.last();
        if sample.is_degenerate(points) {
            earlier
        } else {
            match earlier {
                None => Some(sample),
                Some(best) => if sample.inliers(points, threshold).len() > best.inliers(
                    points,
                    threshold,
                ).len() {
                    Some(sample)
                } else {
                    Some(best)
                },
            }
        }
    }
}

/// The number of inliers of the best plane after the given samples, and 0
/// where there is none yet.
pub open spec fn best_count(points: Seq<Point3D>, threshold: nat, samples: Seq<Sample>) -> nat {
    match best_after(points, threshold, samples) {
        None => 0,
        Some(best) => best.inliers(points, threshold).len(),
    }
}

/// `found` is what the samples yield on the cloud: the plane of the best
/// sample with its inliers, or nothing where no sample determined a plane.
pub open spec fn is_fit_of(
    points: Seq<Point3D>,
    threshold: nat,
    samples: Seq<Sample>,
    found: Option<(Plane, Vec<Point3D>)>,
) -> bool {
    match best_after(points, threshold, samples) {
        None => found is None,
        Some(best) => {
            &&& found is Some
            &&& found->Some_0.0@ == best.plane(points)
            &&& found->Some_0.1@ == best.inliers(points, threshold)
        },
    }
}

/// `result` is what a fit from the samples returns on the cloud: the plane
/// of the best sample with its inliers, or `NoValidPlaneFound` where no
/// sample determined a plane.
pub open spec fn is_outcome_of(
    points: Seq<Point3D>,
    threshold: nat,
    samples: Seq<Sample>,
    result: Result<(Plane, Vec<Point3D>), CloudError>,
) -> bool {
    match result {
        Ok(found) => is_fit_of(points, threshold, samples, Some(found)),
        Err(error) => error == CloudError::NoValidPlaneFound && is_fit_of(
            points,
            threshold,
            samples,
            None,
        ),
    }
}

/// The best sample is one of the samples tried and determines a plane; and
/// there is no best sample only where every sample tried is degenerate.
pub proof fn lemma_best_is_sampled(points: Seq<Point3D>, threshold: nat, samples: Seq<Sample>)
    ensures
        match best_after(points, threshold, samples) {
            Some(best) => samples.contains(best) && !best.is_degenerate(points),
            None => forall|i: int|
                0 <= i < samples.len() ==> (#[trigger] samples[i]).is_degenerate(points),
        },
    decreases samples.len(),
{
    if samples.len() > 0 {
        let shorter = samples.drop_last();
        lemma_best_is_sampled(points, threshold, shorter);
        let last = samples.len() - 1;
        assert(samples[last] == samples.last());
        match best_after(points, threshold, shorter) {
            Some(best) => {
                let i = choose|i: int| 0 <= i < shorter.len() && shorter[i] == best;
                assert(samples[i] == best);
            },
            None => {
                assert forall|i: int| 0 <= i < samples.len() && best_after(
                    points,
                    threshold,
                    samples,
                ) is None implies (#[trigger] samples[i]).is_degenerate(points) by {
                    if i < last {
                        assert(shorter[i] == samples[i]);
                    }
                }
            },
        }
    }
}

/// The selection rule in one sentence: the best sample is the first, among
/// the samples that determine a plane, with the greatest number of inliers.
/// `at` is where it stands among the samples.
pub proof fn lemma_best_is_first_maximum(
    points: Seq<Point3D>,
    threshold: nat,
    samples: Seq<Sample>,
) -> (at: int)
    requires
        best_after(points, threshold, samples) is Some,
    ensures
        0 <= at < samples.len(),
        samples[at] == best_after(points, threshold, samples)->Some_0,
        !samples[at].is_degenerate(points),
        forall|j: int|
            0 <= j < samples.len() && !(#[trigger] samples[j]).is_degenerate(points)
                ==> samples[j].inliers(points, threshold).len() <= samples[at].inliers(
                points,
                threshold,
            ).len(),
        forall|j: int|
            0 <= j < at && !(#[trigger] samples[j]).is_degenerate(points) ==> samples[j].inliers(
                points,
                threshold,
            ).len() < samples[at].inliers(points, threshold).len(),
    decreases samples.len(),
{
    let shorter = samples.drop_last();
    let last = samples.len() - 1;
    let earlier = best_after(points, threshold, shorter);
    assert(samples[last] == samples.last());
    assert forall|j: int| 0 <= j < last implies shorter[j] == samples[j] by {}
    if samples[last].is_degenerate(points) {
        lemma_best_is_first_maximum(points, threshold, shorter)
    } else {
        match earlier {
            None => {
                lemma_best_is_sampled(points, threshold, shorter);
                assert forall|j: int|
                    0 <= j < last implies (#[trigger] samples[j]).is_degenerate(points) by {
                    assert(shorter[j].is_degenerate(points));
                }
                last
            },
            Some(best) => {
                let before = lemma_best_is_first_maximum(points, threshold, shorter);
                if samples[last].inliers(points, threshold).len() > best.inliers(
                    points,
                    threshold,
                ).len() {
                    assert forall|j: int|
                        0 <= j < last && !(#[trigger] samples[j]).is_degenerate(
                            points,
                        ) implies samples[j].inliers(points, threshold).len() < samples[last].inliers(
                        points,
                        threshold,
                    ).len() by {
                        assert(!shorter[j].is_degenerate(points));
                    }
                    last
                } else {
                    assert forall|j: int|
                        0 <= j < samples.len() && !(#[trigger] samples[j]).is_degenerate(
                            points,
                        ) implies samples[j].inliers(points, threshold).len() <= samples[before].inliers(
                        points,
                        threshold,
                    ).len() by {
                        if j < last {
                            assert(!shorter[j].is_degenerate(points));
                        }
                    }
                    assert forall|j: int|
                        0 <= j < before && !(#[trigger] samples[j]).is_degenerate(
                            points,
                        ) implies samples[j].inliers(points, threshold).len() < samples[before].inliers(
                        points,
                        threshold,
                    ).len() by {
                        assert(!shorter[j].is_degenerate(points));
                    }
                    before
                }
            },
        }
    }
}

/// The number of inliers of the best plane never falls as more samples are
/// tried, and a best plane, once there is one, stays.
pub proof fn lemma_best_count_grows(
    points: Seq<Point3D>,
    threshold: nat,
    samples: Seq<Sample>,
    fewer: int,
    more: int,
)
    requires
        0 <= fewer <= more <= samples.len(),
    ensures
        best_count(points, threshold, samples.take(fewer)) <= best_count(
            points,
            threshold,
            samples.take(more),
        ),
        best_after(points, threshold, samples.take(fewer)) is Some ==> best_after(
            points,
            threshold,
            samples.take(more),
        ) is Some,
    decreases more - fewer,
{
    if fewer < more {
        lemma_best_count_grows(points, threshold, samples, fewer, more - 1);
        assert(samples.take(more).drop_last() == samples.take(more - 1));
    }
}

/// Draws a place in a sequence of `n` from the thread's generator of the
/// `rand` crate, `rand::thread_rng().gen_range(0..n)`. The crate documents
/// that the value lies in the range, and that an empty range panics.
/// Nothing else is claimed of what is drawn. (The generator is seeded by the
/// operating system when a thread first uses it; the crate gives up where
/// the system has no entropy to offer, whatever `n` is.)
#[verifier::external_body]
fn random_index(n: usize) -> (i: usize)
    requires
        n > 0,
    ensures
        i < n,
{
    rand::thread_rng().gen_range(0..n)
}

/// The first value below `n` that the generator `StdRng` of the `rand`
/// crate yields when it is started from `seed`:
/// `StdRng::seed_from_u64(seed).gen_range(0..n)`.
pub uninterp spec fn first_place(seed: u64, n: u64) -> u64;

/// Starts the generator `StdRng` of the `rand` crate from `seed` and draws
/// one value below `n` from it, `StdRng::seed_from_u64(seed).gen_range(0..n)`.
///
/// What is claimed: the value lies in the range, as the crate documents
/// (an empty range panics); and it is a function of `seed` and `n`. The
/// latter goes by the crate's source: `seed_from_u64` expands the seed to a
/// key by fixed arithmetic, the generator is the ChaCha cipher with 12
/// rounds under that key, and a value of a `u64` range is made from the
/// generator's 64-bit words alone. (The crate's documentation keeps the
/// right to change the generator in another version of the crate.)
#[verifier::external_body]
fn seeded_place(seed: u64, n: u64) -> (i: u64)
    requires
        n > 0,
    ensures
        i == first_place(seed, n),
        i < n,
{
    StdRng::seed_from_u64(seed).gen_range(0..n)
}

/// By how much the state of a seeded source moves with each draw: the odd
/// number nearest to `2^64` divided by the golden ratio. Steps of that
/// length spread the states over the whole range, and keep the states of
/// sources started from neighbouring seeds apart.
pub const STRIDE: u64 = 0x9E37_79B9_7F4A_7C15;

/// The state of a seeded source after one draw: `STRIDE` further, around
/// the end of the `u64` range.
pub open spec fn advanced(state: u64) -> u64 {
    if state + STRIDE <= u64::MAX {
        (state + STRIDE) as u64
    } else {
        (state + STRIDE - 0x1_0000_0000_0000_0000) as u64
    }
}

/// The place in a sequence of `n` that a seeded source in `state` draws:
/// the first value of a generator started from the state.
pub open spec fn place_at(state: u64, n: usize) -> usize {
    first_place(state, n as u64) as usize
}

/// The sample that a seeded source in `state` draws from a sequence of `n`:
/// three places, from three successive states.
pub open spec fn sample_at(state: u64, n: usize) -> Sample {
    Sample {
        first: place_at(state, n),
        second: place_at(advanced(state), n),
        third: place_at(advanced(advanced(state)), n),
    }
}

/// The state of a seeded source after it has drawn `count` samples.
pub open spec fn state_after(state: u64, count: nat) -> u64
    decreases count,
{
    if count == 0 {
        state
    } else {
        advanced(advanced(advanced(state_after(state, (count - 1) as nat))))
    }
}

/// The first `count` samples that a seeded source in `state` draws from a
/// sequence of `n`.
pub open spec fn seeded_samples(state: u64, n: usize, count: nat) -> Seq<Sample>
    decreases count,
{
    if count == 0 {
        Seq::empty()
    } else {
        seeded_samples(state, n, (count - 1) as nat).push(
            sample_at(state_after(state, (count - 1) as nat), n),
        )
    }
}

/// A seeded source draws the same samples first, however many it goes on to
/// draw.
pub proof fn lemma_seeded_samples_extend(state: u64, n: usize, fewer: nat, more: nat)
    requires
        fewer <= more,
    ensures
        seeded_samples(state, n, more).len() == more,
        seeded_samples(state, n, more).take(fewer as int) == seeded_samples(state, n, fewer),
    decreases more,
{
    if more > 0 {
        lemma_seeded_samples_extend(state, n, if fewer < more {
            fewer
        } else {
            (more - 1) as nat
        }, (more - 1) as nat);
        let shorter = seeded_samples(state, n, (more - 1) as nat);
        let longer = seeded_samples(state, n, more);
        if fewer < more {
            assert(longer.take(fewer as int) == shorter.take(fewer as int));
        } else {
            assert(longer.take(more as int) == longer);
        }
    } else {
        assert(seeded_samples(state, n, 0).take(0) == seeded_samples(state, n, 0));
    }
}

/// With one seed, the number of inliers of the best plane never falls as
/// the number of iterations grows.
pub proof fn lemma_seeded_best_count_grows(
    points: Seq<Point3D>,
    threshold: nat,
    seed: u64,
    n: usize,
    fewer: nat,
    more: nat,
)
    requires
        fewer <= more,
    ensures
        best_count(points, threshold, seeded_samples(seed, n, fewer)) <= best_count(
            points,
            threshold,
            seeded_samples(seed, n, more),
        ),
{
    lemma_seeded_samples_extend(seed, n, fewer, more);
    lemma_seeded_samples_extend(seed, n, more, more);
    lemma_best_count_grows(
        points,
        threshold,
        seeded_samples(seed, n, more),
        fewer as int,
        more as int,
    );
}

/// Where the samples of a fit come from.
#[derive(Debug, Clone, PartialEq, Eq, Structural)]
pub enum SampleSource {
    /// The thread's generator, which the system seeds: other draws each run.
    Entropy,
    /// A seed and what has been drawn from it, in one number: the state,
    /// which determines every draw to come. Fits from it can be repeated.
    Seeded { state: u64 },
}

impl SampleSource {
    /// A source that the system seeds.
    pub fn entropy() -> (source: SampleSource)
        ensures
            source == SampleSource::Entropy,
    {
        SampleSource::Entropy
    }

    /// A source started from `seed`: its first state is the seed.
    pub fn seeded(seed: u64) -> (source: SampleSource)
        ensures
            source == (SampleSource::Seeded { state: seed }),
    {
        SampleSource::Seeded { state: seed }
    }

    /// A place in a sequence of `n`, which must not be empty. A seeded
    /// source draws the place that its state determines, and moves on to its
    /// next state; the other draws any place.
    pub fn draw(&mut self, n: usize) -> (i: usize)
        requires
            n > 0,
        ensures
            i < n,
            match *old(self) {
                SampleSource::Entropy => *final(self) == SampleSource::Entropy,
                SampleSource::Seeded { state } => {
                    &&& i == place_at(state, n)
                    &&& *final(self) == (SampleSource::Seeded { state: advanced(state) })
                },
            },
    {
        match self {
            SampleSource::Entropy => random_index(n),
            SampleSource::Seeded { state } => {
                let place: u64 = seeded_place(*state, n as u64);
                let next: u64 = if *state <= u64::MAX - STRIDE {
                    *state + STRIDE
                } else {
                    *state - (u64::MAX - STRIDE) - 1
                };
                *state = next;
                place as usize
            },
        }
    }

    /// Three places in a sequence of `n`, each drawn from the whole
    /// sequence whatever the others are. A seeded source draws the sample
    /// that its state determines, and moves on by three states.
    pub fn draw_sample(&mut self, n: usize) -> (sample: Sample)
        requires
            n > 0,
        ensures
            sample.within(n as nat),
            match *old(self) {
                SampleSource::Entropy => *final(self) == SampleSource::Entropy,
                SampleSource::Seeded { state } => {
                    &&& sample == sample_at(state, n)
                    &&& *final(self) == (SampleSource::Seeded {
                        state: advanced(advanced(advanced(state))),
                    })
                },
            },
    {
        let first = self.draw(n);
        let second = self.draw(n);
        let third = self.draw(n);
        Sample { first, second, third }
    }
}

/// The plane through the three sampled points of the cloud, and the points
/// of the cloud that support it: those that equal none of the three and are
/// closer to the plane than `threshold`, in the order of the cloud.
///
/// A sample with a place that the cloud does not have is refused with
/// `IndexOutOfRange`, and one whose points determine no plane with
/// `DegenerateSample`.
pub fn evaluate_sample(cloud: &PointCloud, sample: Sample, threshold: u64) -> (result: Result<
    (Plane, Vec<Point3D>),
    CloudError,
>)
    ensures
        !sample.within(cloud@.len()) ==> result == Err::<(Plane, Vec<Point3D>), CloudError>(
            CloudError::IndexOutOfRange,
        ),
        sample.within(cloud@.len()) && sample.is_degenerate(cloud@) ==> result == Err::<
            (Plane, Vec<Point3D>),
            CloudError,
        >(CloudError::DegenerateSample),
        sample.within(cloud@.len()) && !sample.is_degenerate(cloud@) ==> {
            &&& result is Ok
            &&& result->Ok_0.0@ == sample.plane(cloud@)
            &&& result->Ok_0.1@ == sample.inliers(cloud@, threshold as nat)
        },
{
    let points = cloud.points();
    let n: usize = points.len();
    if sample.first >= n || sample.second >= n || sample.third >= n {
        return Err(CloudError::IndexOutOfRange);
    }
    let first: Point3D = points[sample.first];
    let second: Point3D = points[sample.second];
    let third: Point3D = points[sample.third];
    proof {
        assert(first.in_range() && second.in_range() && third.in_range());
        lemma_through_in_range(first.position(), second.position(), third.position());
    }
    let plane: Plane = Plane::gen_plane_from_points(&first, &second, &third);
    if plane.is_degenerate() {
        return Err(CloudError::DegenerateSample);
    }
    let ghost test = sample.supports(points@, threshold as nat);
    let mut point_in_plane: Vec<Point3D> = Vec::new();
    let mut i: usize = 0;
    assert(points@.take(0).filter(test) == Seq::<Point3D>::empty()) by {
        reveal(Seq::filter);
    }
    while i < n
        invariant
            i <= n,
            n == points@.len(),
            sample.within(n as nat),
            first == points@[sample.first as int],
            second == points@[sample.second as int],
            third == points@[sample.third as int],
            crate::voxel::all_in_range(points@),
            plane@ == sample.plane(points@),
            plane@.in_range(),
            !plane@.is_degenerate(),
            test == sample.supports(points@, threshold as nat),
            point_in_plane@ == points@.take(i as int).filter(test),
        decreases n - i,
    {
        let point: Point3D = points[i];
        proof {
            assert(points@.take(i + 1) == points@.take(i as int).push(point));
            points@.take(i as int).lemma_filter_push(point, test);
            assert(point.in_range());
            lemma_evaluate_bound(plane@, point.position());
        }
        if !(point == first || point == second || point == third) {
            let distance: u64 = point.distance_to_plane(&plane);
            proof {
                lemma_floor_distance_decides(
                    plane@,
                    point.position(),
                    distance as nat,
                    threshold as nat,
                );
            }
            if distance < threshold {
                point_in_plane.push(point);
            }
        }
        i += 1;
    }
    assert(points@.take(n as int) == points@);
    Ok((plane, point_in_plane))
}

/// The selection rule: a candidate takes the place of the best plane so far
/// only where it has strictly more inliers, or where there is no plane yet.
/// Among planes with as many inliers, the one found first stays.
pub fn keep_better(best: Option<(Plane, Vec<Point3D>)>, candidate: (Plane, Vec<Point3D>)) -> (kept:
    Option<(Plane, Vec<Point3D>)>)
    ensures
        kept == Some(
            if best is Some && candidate.1@.len() <= best->Some_0.1@.len() {
                best->Some_0
            } else {
                candidate
            },
        ),
{
    match best {
        None => Some(candidate),
        Some(current) => {
            if candidate.1.len() > current.1.len() {
                Some(candidate)
            } else {
                Some(current)
            }
        },
    }
}

/// One iteration: tries a sample and keeps the better of its plane and the
/// best so far. A degenerate sample leaves the best so far as it is.
fn try_sample(
    cloud: &PointCloud,
    threshold: u64,
    best: Option<(Plane, Vec<Point3D>)>,
    sample: Sample,
    Ghost(tried): Ghost<Seq<Sample>>,
) -> (kept: Option<(Plane, Vec<Point3D>)>)
    requires
        sample.within(cloud@.len()),
        is_fit_of(cloud@, threshold as nat, tried, best),
    ensures
        is_fit_of(cloud@, threshold as nat, tried.push(sample), kept),
{
    assert(tried.push(sample).drop_last() == tried);
    match evaluate_sample(cloud, sample, threshold) {
        Ok(candidate) => keep_better(best, candidate),
        Err(_) => best,
    }
}

/// Fits a plane to the cloud from the given samples, tried in turn: the
/// plane of the best sample, with its inliers.
///
/// Fails with `InsufficientPoints` on a cloud of fewer than three points;
/// otherwise with `IndexOutOfRange` where a sample names a place that the
/// cloud does not have; otherwise with `NoValidPlaneFound` where no sample
/// determines a plane. A plane that is returned is never degenerate.
pub fn ransac_with_samples(cloud: &PointCloud, threshold: u64, samples: &Vec<Sample>) -> (result:
    Result<(Plane, Vec<Point3D>), CloudError>)
    ensures
        cloud@.len() < 3 ==> result == Err::<(Plane, Vec<Point3D>), CloudError>(
            CloudError::InsufficientPoints,
        ),
        cloud@.len() >= 3 && !all_within(samples@, cloud@.len()) ==> result == Err::<
            (Plane, Vec<Point3D>),
            CloudError,
        >(CloudError::IndexOutOfRange),
        cloud@.len() >= 3 && all_within(samples@, cloud@.len()) ==> is_outcome_of(
            cloud@,
            threshold as nat,
            samples@,
            result,
        ),
        result is Ok ==> !result->Ok_0.0@.is_degenerate(),
{
    let n: usize = cloud.size();
    if n < 3 {
        return Err(CloudError::InsufficientPoints);
    }
    let mut i: usize = 0;
    while i < samples.len()
        invariant
            i <= samples.len(),
            n == cloud@.len(),
            n >= 3,
            forall|k: int| 0 <= k < i ==> (#[trigger] samples@[k]).within(n as nat),
        decreases samples.len() - i,
    {
        let sample: Sample = samples[i];
        if sample.first >= n || sample.second >= n || sample.third >= n {
            return Err(CloudError::IndexOutOfRange);
        }
        i += 1;
    }
    let mut best: Option<(Plane, Vec<Point3D>)> = None;
    let mut k: usize = 0;
    while k < samples.len()
        invariant
            k <= samples.len(),
            n == cloud@.len(),
            n >= 3,
            all_within(samples@, n as nat),
            is_fit_of(cloud@, threshold as nat, samples@.take(k as int), best),
        decreases samples.len() - k,
    {
        let sample: Sample = samples[k];
        assert(samples@[k as int].within(n as nat));
        best = try_sample(cloud, threshold, best, sample, Ghost(samples@.take(k as int)));
        assert(samples@.take(k as int).push(sample) == samples@.take(k + 1));
        k += 1;
    }
    proof {
        assert(samples@.take(samples.len() as int) == samples@);
        lemma_best_is_sampled(cloud@, threshold as nat, samples@);
    }
    match best {
        Some(found) => Ok(found),
        None => Err(CloudError::NoValidPlaneFound),
    }
}

/// Fits a plane to the cloud from `iterations` samples of three points,
/// each point drawn from `source` out of the whole cloud, whatever was drawn
/// before. The result is that of `ransac_with_samples` on the samples drawn,
/// which for a seeded source are those that its state determines.
///
/// Fails with `InsufficientPoints` on a cloud of fewer than three points,
/// before anything is drawn, and with `NoValidPlaneFound` where no sample
/// determined a plane. A plane that is returned is never degenerate.
pub fn ransac_from(
    cloud: &PointCloud,
    threshold: u64,
    iterations: usize,
    source: &mut SampleSource,
) -> (result: Result<(Plane, Vec<Point3D>), CloudError>)
    ensures
        cloud@.len() < 3 ==> result == Err::<(Plane, Vec<Point3D>), CloudError>(
            CloudError::InsufficientPoints,
        ),
        cloud@.len() >= 3 ==> exists|samples: Seq<Sample>|
            {
                &&& samples.len() == iterations
                &&& all_within(samples, cloud@.len())
                &&& #[trigger] is_outcome_of(cloud@, threshold as nat, samples, result)
            },
        result is Ok ==> !result->Ok_0.0@.is_degenerate(),
        cloud@.len() < 3 ==> *final(source) == *old(source),
        cloud@.len() >= 3 ==> match *old(source) {
            SampleSource::Entropy => *final(source) == SampleSource::Entropy,
            SampleSource::Seeded { state } => {
                &&& is_outcome_of(
                    cloud@,
                    threshold as nat,
                    seeded_samples(state, cloud@.len() as usize, iterations as nat),
                    result,
                )
                &&& *final(source) == (SampleSource::Seeded {
                    state: state_after(state, iterations as nat),
                })
            },
        },
{
    let n: usize = cloud.size();
    if n < 3 {
        return Err(CloudError::InsufficientPoints);
    }
    let mut best: Option<(Plane, Vec<Point3D>)> = None;
    let ghost mut drawn: Seq<Sample> = Seq::empty();
    let mut k: usize = 0;
    while k < iterations
        invariant
            k <= iterations,
            n == cloud@.len(),
            n >= 3,
            drawn.len() == k,
            all_within(drawn, n as nat),
            is_fit_of(cloud@, threshold as nat, drawn, best),
            match *old(source) {
                SampleSource::Entropy => *source == SampleSource::Entropy,
                SampleSource::Seeded { state } => {
                    &&& drawn == seeded_samples(state, n, k as nat)
                    &&& *source == (SampleSource::Seeded { state: state_after(state, k as nat) })
                },
            },
        decreases iterations - k,
    {
        let sample = source.draw_sample(n);
        best = try_sample(cloud, threshold, best, sample, Ghost(drawn));
        proof {
            drawn = drawn.push(sample);
        }
        k += 1;
    }
    let result = match best {
        Some(found) => Ok(found),
        None => Err(CloudError::NoValidPlaneFound),
    };
    proof {
        assert(is_outcome_of(cloud@, threshold as nat, drawn, result));
        lemma_best_is_sampled(cloud@, threshold as nat, drawn);
    }
    result
}

/// Fits a plane to the cloud from `iterations` random samples, drawn from
/// the system's entropy: `ransac_from` on `SampleSource::entropy()`.
pub fn ransac(point_cloud: PointCloud, threshold: u64, iterations: usize) -> (result: Result<
    (Plane, Vec<Point3D>),
    CloudError,
>)
    ensures
        point_cloud@.len() < 3 ==> result == Err::<(Plane, Vec<Point3D>), CloudError>(
            CloudError::InsufficientPoints,
        ),
        point_cloud@.len() >= 3 ==> exists|samples: Seq<Sample>|
            {
                &&& samples.len() == iterations
                &&& all_within(samples, point_cloud@.len())
                &&& #[trigger] is_outcome_of(point_cloud@, threshold as nat, samples, result)
            },
        result is Ok ==> !result->Ok_0.0@.is_degenerate(),
{
    let mut source = SampleSource::entropy();
    ransac_from(&point_cloud, threshold, iterations, &mut source)
}

/// Fits a plane to the cloud from the `iterations` samples that `seed`
/// determines: `ransac_from` on `SampleSource::seeded(seed)`. The same cloud,
/// threshold, number of iterations and seed give the same result.
pub fn ransac_seeded(point_cloud: PointCloud, threshold: u64, iterations: usize, seed: u64) -> (result:
    Result<(Plane, Vec<Point3D>), CloudError>)
    ensures
        point_cloud@.len() < 3 ==> result == Err::<(Plane, Vec<Point3D>), CloudError>(
            CloudError::InsufficientPoints,
        ),
        point_cloud@.len() >= 3 ==> exists|samples: Seq<Sample>|
            {
                &&& samples.len() == iterations
                &&& all_within(samples, point_cloud@.len())
                &&& #[trigger] is_outcome_of(point_cloud@, threshold as nat, samples, result)
            },
        result is Ok ==> !result->Ok_0.0@.is_degenerate(),
        point_cloud@.len() >= 3 ==> is_outcome_of(
            point_cloud@,
            threshold as nat,
            seeded_samples(seed, point_cloud@.len() as usize, iterations as nat),
            result,
        ),
{
    let mut source = SampleSource::seeded(seed);
    ransac_from(&point_cloud, threshold, iterations, &mut source)
}

} // verus!
