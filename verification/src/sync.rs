//! Pairing clouds with images that were taken at about the same time.

use vstd::math::abs;
use vstd::prelude::*;

verus! {

/// Nanoseconds that may lie between a cloud and its image.
pub const SYNC_TOLERANCE_NS: i64 = 50_000_000;

/// Messages of each kind that are kept.
pub const MAX_BUFFERED: usize = 30;

/// A time stamp.
#[derive(Clone, Copy, PartialEq, Eq, Debug, Structural)]
pub struct Time {
    pub sec: i32,
    pub nanosec: u32,
}

/// A time in nanoseconds.
pub open spec fn time_ns(t: Time) -> int {
    t.sec * 1_000_000_000 + t.nanosec
}

/// A time in nanoseconds.
pub fn stamp_to_ns(stamp: &Time) -> (r: i64)
    ensures
        r == time_ns(*stamp),
        -3_000_000_000_000_000_000 <= r <= 3_000_000_000_000_000_000,
{
    stamp.sec as i64 * 1_000_000_000 + stamp.nanosec as i64
}

/// A message with its time stamp.
pub struct Stamped<T> {
    pub stamp: Time,
    pub item: T,
}

/// Clouds and images that wait for each other.
pub struct SyncBuffers<L, C> {
    pub lidar: Vec<Stamped<L>>,
    pub camera: Vec<Stamped<C>>,
}

/// Nanoseconds between cloud `i` and image `j`.
pub open spec fn apart<L, C>(
    lidar: Seq<Stamped<L>>,
    camera: Seq<Stamped<C>>,
    i: int,
    j: int,
) -> int {
    let d = time_ns(lidar[i].stamp) - time_ns(camera[j].stamp);
    if d < 0 {
        -d
    } else {
        d
    }
}

/// Whether cloud `i` and image `j` are near enough for a pair.
pub open spec fn pairable<L, C>(
    lidar: Seq<Stamped<L>>,
    camera: Seq<Stamped<C>>,
    i: int,
    j: int,
) -> bool {
    &&& 0 <= i < lidar.len()
    &&& 0 <= j < camera.len()
    &&& apart(lidar, camera, i, j) <= SYNC_TOLERANCE_NS
}

/// Whether the pair `(a, b)` comes before the pair `(i, j)`.
pub open spec fn earlier(a: int, b: int, i: int, j: int) -> bool {
    a < i || (a == i && b < j)
}

/// Whether cloud `i` and image `j` are the pair to take: none is nearer, and
/// none that comes before it is as near.
pub open spec fn best_pair<L, C>(
    lidar: Seq<Stamped<L>>,
    camera: Seq<Stamped<C>>,
    i: int,
    j: int,
) -> bool {
    &&& pairable(lidar, camera, i, j)
    &&& forall|a: int, b: int| #[trigger]
        pairable(lidar, camera, a, b) ==> apart(lidar, camera, i, j) <= apart(lidar, camera, a, b)
    &&& forall|a: int, b: int| #[trigger]
        pairable(lidar, camera, a, b) && earlier(a, b, i, j) ==> apart(lidar, camera, i, j)
            < apart(lidar, camera, a, b)
}

/// The messages that are newer than `t`.
pub open spec fn newer<T>(s: Seq<Stamped<T>>, t: int) -> Seq<Stamped<T>> {
    s.filter(|m: Stamped<T>| time_ns(m.stamp) > t)
}

/// The buffer with a new message, and without the oldest one if it is full.
pub open spec fn buffered<T>(s: Seq<Stamped<T>>, m: Stamped<T>) -> Seq<Stamped<T>> {
    if s.len() >= MAX_BUFFERED {
        s.push(m).skip(1)
    } else {
        s.push(m)
    }
}

/// What taking the best pair gives and leaves, for buffers `l` and `c`.
pub open spec fn matched<L, C>(
    l: Seq<Stamped<L>>,
    c: Seq<Stamped<C>>,
    after: SyncBuffers<L, C>,
    r: Option<(Stamped<L>, Stamped<C>)>,
) -> bool {
    match r {
        None => {
            &&& forall|i: int, j: int| !#[trigger] pairable(l, c, i, j)
            &&& after.lidar@ == l
            &&& after.camera@ == c
        },
        Some((cloud, image)) => exists|i: int, j: int|
            {
                &&& #[trigger] best_pair(l, c, i, j)
                &&& cloud == l[i]
                &&& image == c[j]
                &&& after.lidar@ == newer(l, time_ns(l[i].stamp))
                &&& after.camera@ == newer(c, time_ns(c[j].stamp))
            },
    }
}

/// Splits off message `at`, and keeps those that are newer than it.
fn take_and_drop_older<T>(buf: &mut Vec<Stamped<T>>, at: usize) -> (m: Stamped<T>)
    requires
        at < old(buf)@.len(),
    ensures
        m == old(buf)@[at as int],
        final(buf)@ == newer(old(buf)@, time_ns(m.stamp)),
{
    let t: i64 = stamp_to_ns(&buf[at].stamp);
    let n: usize = buf.len();
    let ghost all = buf@;
    let ghost pred = |m: Stamped<T>| time_ns(m.stamp) > t;
    let mut rest: Vec<Stamped<T>> = Vec::new();
    core::mem::swap(buf, &mut rest);
    let mut chosen: Option<Stamped<T>> = None;
    let mut i: usize = 0;
    assert(all.take(0).filter(pred).len() == 0) by {
        all.take(0).lemma_filter_len(pred);
    }
    while i < n
        invariant
            i <= n,
            at < n,
            n == all.len(),
            rest@ == all.skip(i as int),
            t == time_ns(all[at as int].stamp),
            pred == (|m: Stamped<T>| time_ns(m.stamp) > t),
            buf@ == all.take(i as int).filter(pred),
            i <= at ==> chosen is None,
            i > at ==> chosen == Some(all[at as int]),
        decreases n - i,
    {
        assert(rest@[0] == all[i as int]);
        assert(all.skip(i as int).remove(0) =~= all.skip(i + 1));
        assert(all.take(i + 1).drop_last() =~= all.take(i as int));
        proof {
            filter_grows(all.take(i + 1), pred);
        }
        let m = rest.remove(0);
        if i == at {
            chosen = Some(m);
        } else if stamp_to_ns(&m.stamp) > t {
            buf.push(m);
        }
        i = i + 1;
    }
    assert(all.take(i as int) =~= all);
    chosen.unwrap()
}

/// Filtering one more message keeps it or not.
proof fn filter_grows<T>(s: Seq<Stamped<T>>, pred: spec_fn(Stamped<T>) -> bool)
    requires
        s.len() > 0,
    ensures
        s.filter(pred) == if pred(s.last()) {
            s.drop_last().filter(pred).push(s.last())
        } else {
            s.drop_last().filter(pred)
        },
{
    reveal(Seq::filter);
}

impl<L, C> SyncBuffers<L, C> {
    /// Whether neither buffer is over its limit.
    pub open spec fn wf(&self) -> bool {
        self.lidar@.len() <= MAX_BUFFERED && self.camera@.len() <= MAX_BUFFERED
    }

    /// Empty buffers.
    pub fn new() -> (s: Self)
        ensures
            s.wf(),
            s.lidar@.len() == 0,
            s.camera@.len() == 0,
    {
        SyncBuffers { lidar: Vec::new(), camera: Vec::new() }
    }

    /// Takes a cloud, and gives the pair that it makes possible.
    pub fn push_lidar(&mut self, msg: Stamped<L>) -> (r: Option<(Stamped<L>, Stamped<C>)>)
        requires
            old(self).wf(),
        ensures
            final(self).wf(),
            matched(buffered(old(self).lidar@, msg), old(self).camera@, *final(self), r),
    {
        self.lidar.push(msg);
        if self.lidar.len() > MAX_BUFFERED {
            let ghost all = self.lidar@;
            let _ = self.lidar.remove(0);
            assert(self.lidar@ =~= all.skip(1));
        }
        self.try_match()
    }

    /// Takes an image, and gives the pair that it makes possible.
    pub fn push_camera(&mut self, msg: Stamped<C>) -> (r: Option<(Stamped<L>, Stamped<C>)>)
        requires
            old(self).wf(),
        ensures
            final(self).wf(),
            matched(old(self).lidar@, buffered(old(self).camera@, msg), *final(self), r),
    {
        self.camera.push(msg);
        if self.camera.len() > MAX_BUFFERED {
            let ghost all = self.camera@;
            let _ = self.camera.remove(0);
            assert(self.camera@ =~= all.skip(1));
        }
        self.try_match()
    }

    /// Takes the nearest pair within the tolerance, if there is one, and drops
    /// all that is not newer than it.
    pub fn try_match(&mut self) -> (r: Option<(Stamped<L>, Stamped<C>)>)
        requires
            old(self).wf(),
        ensures
            final(self).wf(),
            matched(old(self).lidar@, old(self).camera@, *final(self), r),
    {
        let ghost l = self.lidar@;
        let ghost c = self.camera@;
        match self.find_best() {
            None => None,
            Some((i, j)) => {
                let cloud = take_and_drop_older(&mut self.lidar, i);
                let image = take_and_drop_older(&mut self.camera, j);
                proof {
                    l.lemma_filter_len(|m: Stamped<L>| time_ns(m.stamp) > time_ns(cloud.stamp));
                    c.lemma_filter_len(|m: Stamped<C>| time_ns(m.stamp) > time_ns(image.stamp));
                    assert(best_pair(l, c, i as int, j as int));
                }
                Some((cloud, image))
            },
        }
    }

    /// The nearest pair within the tolerance.
    fn find_best(&self) -> (r: Option<(usize, usize)>)
        ensures
            match r {
                None => forall|i: int, j: int| !#[trigger] pairable(self.lidar@, self.camera@, i, j),
                Some((i, j)) => best_pair(self.lidar@, self.camera@, i as int, j as int),
            },
    {
        let ghost l = self.lidar@;
        let ghost c = self.camera@;
        let mut best: Option<(usize, usize, i64)> = None;
        let mut i: usize = 0;
        while i < self.lidar.len()
            invariant
                l == self.lidar@,
                c == self.camera@,
                i <= l.len(),
                best_so_far(l, c, best, i as int, 0),
            decreases l.len() - i,
        {
            let l_t: i64 = stamp_to_ns(&self.lidar[i].stamp);
            let mut j: usize = 0;
            while j < self.camera.len()
                invariant
                    l == self.lidar@,
                    c == self.camera@,
                    i < l.len(),
                    j <= c.len(),
                    l_t == time_ns(l[i as int].stamp),
                    -3_000_000_000_000_000_000 <= l_t <= 3_000_000_000_000_000_000,
                    best_so_far(l, c, best, i as int, j as int),
                decreases c.len() - j,
            {
                let c_t: i64 = stamp_to_ns(&self.camera[j].stamp);
                let diff: i64 = if l_t < c_t {
                    c_t - l_t
                } else {
                    l_t - c_t
                };
                assert(diff == apart(l, c, i as int, j as int));
                let better: bool = match best {
                    None => true,
                    Some((_, _, d)) => diff < d,
                };
                let ghost was = best;
                if diff <= SYNC_TOLERANCE_NS && better {
                    best = Some((i, j, diff));
                }
                proof {
                    one_more(l, c, was, best, i as int, j as int);
                }
                j = j + 1;
            }
            assert(best_so_far(l, c, best, i + 1, 0)) by {
                assert forall|a: int, b: int| #[trigger] pairable(l, c, a, b) && earlier(
                    a,
                    b,
                    i + 1,
                    0,
                ) implies earlier(a, b, i as int, c.len() as int) by {}
                assert forall|a: int, b: int| #[trigger] pairable(l, c, a, b) && earlier(
                    a,
                    b,
                    i as int,
                    c.len() as int,
                ) implies earlier(a, b, i + 1, 0) by {}
            }
            i = i + 1;
        }
        match best {
            None => None,
            Some((i, j, _)) => Some((i, j)),
        }
    }
}

/// Whether `best` is the best pair among those before `(i, j)`.
spec fn best_so_far<L, C>(
    l: Seq<Stamped<L>>,
    c: Seq<Stamped<C>>,
    best: Option<(usize, usize, i64)>,
    i: int,
    j: int,
) -> bool {
    match best {
        None => forall|a: int, b: int| #[trigger]
            pairable(l, c, a, b) ==> !earlier(a, b, i, j),
        Some((x, y, d)) => {
            &&& pairable(l, c, x as int, y as int)
            &&& earlier(x as int, y as int, i, j)
            &&& d == apart(l, c, x as int, y as int)
            &&& forall|a: int, b: int| #[trigger]
                pairable(l, c, a, b) && earlier(a, b, i, j) ==> d <= apart(l, c, a, b)
            &&& forall|a: int, b: int| #[trigger]
                pairable(l, c, a, b) && earlier(a, b, x as int, y as int) ==> d < apart(l, c, a, b)
        },
    }
}

/// Looking at one more pair keeps the best one best.
proof fn one_more<L, C>(
    l: Seq<Stamped<L>>,
    c: Seq<Stamped<C>>,
    was: Option<(usize, usize, i64)>,
    best: Option<(usize, usize, i64)>,
    i: int,
    j: int,
)
    requires
        best_so_far(l, c, was, i, j),
        0 <= i < l.len(),
        0 <= j < c.len(),
        ({
            let diff = apart(l, c, i, j);
            let better = match was {
                None => true,
                Some((_, _, d)) => diff < d,
            };
            if diff <= SYNC_TOLERANCE_NS && better {
                best matches Some((x, y, d)) && x == i && y == j && d == diff
            } else {
                best == was
            }
        }),
    ensures
        best_so_far(l, c, best, i, j + 1),
{
    assert forall|a: int, b: int| #[trigger] pairable(l, c, a, b) && earlier(
        a,
        b,
        i,
        j + 1,
    ) implies earlier(a, b, i, j) || (a == i && b == j) by {}
    assert(apart(l, c, i, j) <= SYNC_TOLERANCE_NS ==> pairable(l, c, i, j));
}

/// There is at most one best pair.
pub proof fn best_pair_is_unique<L, C>(
    l: Seq<Stamped<L>>,
    c: Seq<Stamped<C>>,
    i: int,
    j: int,
    a: int,
    b: int,
)
    requires
        best_pair(l, c, i, j),
        best_pair(l, c, a, b),
    ensures
        i == a,
        j == b,
{
    assert(earlier(a, b, i, j) || earlier(i, j, a, b) || (i == a && j == b));
}

/// A pair that is given lies within the tolerance, and all that is left is
/// newer than it.
pub proof fn pairs_are_near_and_in_order<L, C>(
    l: Seq<Stamped<L>>,
    c: Seq<Stamped<C>>,
    after: SyncBuffers<L, C>,
    r: Option<(Stamped<L>, Stamped<C>)>,
)
    requires
        matched(l, c, after, r),
    ensures
        r matches Some((cloud, image)) ==> {
            &&& -SYNC_TOLERANCE_NS <= time_ns(cloud.stamp) - time_ns(image.stamp)
                <= SYNC_TOLERANCE_NS
            &&& l.contains(cloud)
            &&& c.contains(image)
            &&& forall|k: int|
                0 <= k < after.lidar@.len() ==> time_ns((#[trigger] after.lidar@[k]).stamp)
                    > time_ns(cloud.stamp)
            &&& forall|k: int|
                0 <= k < after.camera@.len() ==> time_ns((#[trigger] after.camera@[k]).stamp)
                    > time_ns(image.stamp)
        },
{
    if let Some((cloud, image)) = r {
        let (i, j) = choose|i: int, j: int|
            {
                &&& #[trigger] best_pair(l, c, i, j)
                &&& cloud == l[i]
                &&& image == c[j]
                &&& after.lidar@ == newer(l, time_ns(l[i].stamp))
                &&& after.camera@ == newer(c, time_ns(c[j].stamp))
            };
        let lp = |m: Stamped<L>| time_ns(m.stamp) > time_ns(cloud.stamp);
        let cp = |m: Stamped<C>| time_ns(m.stamp) > time_ns(image.stamp);
        assert forall|k: int| 0 <= k < after.lidar@.len() implies time_ns(
            (#[trigger] after.lidar@[k]).stamp,
        ) > time_ns(cloud.stamp) by {
            l.lemma_filter_pred(lp, k);
        }
        assert forall|k: int| 0 <= k < after.camera@.len() implies time_ns(
            (#[trigger] after.camera@[k]).stamp,
        ) > time_ns(image.stamp) by {
            c.lemma_filter_pred(cp, k);
        }
    }
}

/// What is given and what is left, told by the clock: a pair is given exactly
/// where some cloud and some image are at most fifty milliseconds apart, in
/// either order; no two that wait are nearer to each other than those of the
/// pair, and none of the same distance comes before it. What is left is what
/// is newer than the pair, or all where there is no pair.
pub proof fn nearest_within_tolerance_are_paired<L, C>(
    l: Seq<Stamped<L>>,
    c: Seq<Stamped<C>>,
    after: SyncBuffers<L, C>,
    r: Option<(Stamped<L>, Stamped<C>)>,
)
    requires
        matched(l, c, after, r),
    ensures
        r is Some <==> exists|i: int, j: int|
            #![trigger l[i], c[j]]
            0 <= i < l.len() && 0 <= j < c.len() && -50_000_000 <= (l[i].stamp.sec * 1_000_000_000
                + l[i].stamp.nanosec) - (c[j].stamp.sec * 1_000_000_000 + c[j].stamp.nanosec)
                <= 50_000_000,
        r is None ==> after.lidar@ == l && after.camera@ == c,
        r matches Some((cloud, image)) ==> {
            let t = cloud.stamp.sec * 1_000_000_000 + cloud.stamp.nanosec;
            let u = image.stamp.sec * 1_000_000_000 + image.stamp.nanosec;
            &&& -50_000_000 <= t - u <= 50_000_000
            &&& forall|i: int, j: int|
                #![trigger l[i], c[j]]
                0 <= i < l.len() && 0 <= j < c.len() ==> abs(t - u) <= abs(
                    (l[i].stamp.sec * 1_000_000_000 + l[i].stamp.nanosec) - (c[j].stamp.sec
                        * 1_000_000_000 + c[j].stamp.nanosec),
                )
            &&& exists|x: int, y: int|
                #![trigger l[x], c[y]]
                {
                    &&& 0 <= x < l.len() && 0 <= y < c.len() && l[x] == cloud && c[y] == image
                    &&& forall|i: int, j: int|
                        #![trigger l[i], c[j]]
                        0 <= i < l.len() && 0 <= j < c.len() && (i < x || (i == x && j < y)) ==> abs(
                            t - u,
                        ) < abs(
                            (l[i].stamp.sec * 1_000_000_000 + l[i].stamp.nanosec) - (c[j].stamp.sec
                                * 1_000_000_000 + c[j].stamp.nanosec),
                        )
                }
            &&& after.lidar@ == l.filter(
                |m: Stamped<L>| m.stamp.sec * 1_000_000_000 + m.stamp.nanosec > t,
            )
            &&& after.camera@ == c.filter(
                |m: Stamped<C>| m.stamp.sec * 1_000_000_000 + m.stamp.nanosec > u,
            )
        },
{
    match r {
        None => {
            assert forall|i: int, j: int|
                #![trigger l[i], c[j]]
                0 <= i < l.len() && 0 <= j < c.len() implies !(-50_000_000 <= (l[i].stamp.sec
                * 1_000_000_000 + l[i].stamp.nanosec) - (c[j].stamp.sec * 1_000_000_000
                + c[j].stamp.nanosec) <= 50_000_000) by {
                assert(!pairable(l, c, i, j));
            }
        },
        Some((cloud, image)) => {
            let t = cloud.stamp.sec * 1_000_000_000 + cloud.stamp.nanosec;
            let u = image.stamp.sec * 1_000_000_000 + image.stamp.nanosec;
            let (x, y) = choose|i: int, j: int|
                {
                    &&& #[trigger] best_pair(l, c, i, j)
                    &&& cloud == l[i]
                    &&& image == c[j]
                    &&& after.lidar@ == newer(l, time_ns(l[i].stamp))
                    &&& after.camera@ == newer(c, time_ns(c[j].stamp))
                };
            assert(l[x] == cloud && c[y] == image);
            assert forall|i: int, j: int|
                #![trigger l[i], c[j]]
                0 <= i < l.len() && 0 <= j < c.len() implies abs(t - u) <= abs(
                (l[i].stamp.sec * 1_000_000_000 + l[i].stamp.nanosec) - (c[j].stamp.sec
                    * 1_000_000_000 + c[j].stamp.nanosec),
            ) && ((i < x || (i == x && j < y)) ==> abs(t - u) < abs(
                (l[i].stamp.sec * 1_000_000_000 + l[i].stamp.nanosec) - (c[j].stamp.sec
                    * 1_000_000_000 + c[j].stamp.nanosec),
            )) by {
                if apart(l, c, i, j) <= SYNC_TOLERANCE_NS {
                    assert(pairable(l, c, i, j));
                }
            }
            let lp = |m: Stamped<L>| time_ns(m.stamp) > time_ns(l[x].stamp);
            let cp = |m: Stamped<C>| time_ns(m.stamp) > time_ns(c[y].stamp);
            assert(lp =~= (|m: Stamped<L>| m.stamp.sec * 1_000_000_000 + m.stamp.nanosec > t));
            assert(cp =~= (|m: Stamped<C>| m.stamp.sec * 1_000_000_000 + m.stamp.nanosec > u));
        },
    }
}

/// A buffer takes a message at its end. It keeps all that it had, in order,
/// unless it had thirty messages: then it loses the first one.
pub proof fn buffer_keeps_the_last_thirty<T>(s: Seq<Stamped<T>>, m: Stamped<T>)
    requires
        s.len() <= 30,
    ensures
        buffered(s, m).len() <= 30,
        buffered(s, m).last() == m,
        s.len() < 30 ==> buffered(s, m).drop_last() == s,
        s.len() == 30 ==> buffered(s, m).drop_last() == s.subrange(1, 30),
{
    if s.len() < 30 {
        assert(buffered(s, m).drop_last() =~= s);
    } else {
        assert(buffered(s, m).drop_last() =~= s.subrange(1, 30));
    }
}

} // verus!
