use vstd::prelude::*;
use crate::error::Error;
use crate::inventory::{
    days, days_of, entry_views, files_of_kind, take_inventory, DirEntry, DirEntryView,
};
use crate::resolver::{contributions_of, resolve_buckets, FileKind};
use crate::resolver::{
    bucket_views, buckets_sound, contributes, copy_codes, distinct_days, grouped, lemma_grouped,
    Bucket, BucketView, Contribution, Stamped,
};

verus! {

/// The time of the last change of the file of a day, where the list holds
/// one; of two entries for one day the later in the list counts.
pub open spec fn modified_of(files: Seq<Stamped>, day: u32) -> Option<u128>
    decreases files.len(),
{
    if files.len() == 0 {
        None
    } else if files.last().day == day {
        Some(files.last().modified)
    } else {
        modified_of(files.drop_last(), day)
    }
}

/// Looks up the time of the last change of the file of a day.
pub fn find_modified(files: &Vec<Stamped>, day: u32) -> (r: Option<u128>)
    ensures
        r == modified_of(files@, day),
{
    let mut found: Option<u128> = None;
    let mut i: usize = 0;
    while i < files.len()
        invariant
            0 <= i <= files@.len(),
            found == modified_of(files@.take(i as int), day),
        decreases files@.len() - i,
    {
        assert(files@.take(i + 1).drop_last() =~= files@.take(i as int));
        assert(files@.take(i + 1).last() == files@[i as int]);
        if files[i].day == day {
            found = Some(files[i].modified);
        }
        i = i + 1;
    }
    assert(files@.take(i as int) =~= files@);
    found
}

/// The times of the last change of the captures of a bucket, in the
/// bucket's order; a capture that the list does not hold is passed over.
pub open spec fn source_times(sources: Seq<u32>, captures: Seq<Stamped>) -> Seq<u128>
    decreases sources.len(),
{
    if sources.len() == 0 {
        Seq::empty()
    } else {
        match modified_of(captures, sources.last()) {
            Some(t) => source_times(sources.drop_last(), captures).push(t),
            None => source_times(sources.drop_last(), captures),
        }
    }
}

/// Whether a table has to be made again: it is missing, or one of the
/// captures that contribute to it was changed after it.
pub open spec fn is_stale(output: Option<u128>, times: Seq<u128>) -> bool {
    match output {
        None => true,
        Some(t) => exists|i: int| 0 <= i < times.len() && #[trigger] times[i] > t,
    }
}

/// Decides whether a table has to be made again.
pub fn needs_regeneration(output: Option<u128>, times: &Vec<u128>) -> (r: bool)
    ensures
        r == is_stale(output, times@),
{
    match output {
        None => true,
        Some(t) => {
            let mut i: usize = 0;
            while i < times.len()
                invariant
                    0 <= i <= times@.len(),
                    output == Some(t),
                    forall|j: int| 0 <= j < i ==> times@[j] <= t,
                decreases times@.len() - i,
            {
                if times[i] > t {
                    assert(times@[i as int] > t);
                    return true;
                }
                i = i + 1;
            }
            false
        },
    }
}

/// Whether the table of a bucket has to be made again, given the captures
/// and the tables that the host's directory holds.
pub open spec fn bucket_is_stale(
    bucket: BucketView,
    captures: Seq<Stamped>,
    outputs: Seq<Stamped>,
) -> bool {
    is_stale(modified_of(outputs, bucket.local), source_times(bucket.sources, captures))
}

/// Decides whether the table of a bucket has to be made again.
pub fn bucket_needs_regeneration(
    bucket: &Bucket,
    captures: &Vec<Stamped>,
    outputs: &Vec<Stamped>,
) -> (r: bool)
    ensures
        r == bucket_is_stale(bucket@, captures@, outputs@),
{
    let output = find_modified(outputs, bucket.local);
    let mut times: Vec<u128> = Vec::new();
    let mut i: usize = 0;
    assert(bucket.sources@.take(0) =~= Seq::<u32>::empty());
    while i < bucket.sources.len()
        invariant
            0 <= i <= bucket.sources@.len(),
            times@ == source_times(bucket.sources@.take(i as int), captures@),
        decreases bucket.sources@.len() - i,
    {
        assert(bucket.sources@.take(i + 1).drop_last() =~= bucket.sources@.take(i as int));
        assert(bucket.sources@.take(i + 1).last() == bucket.sources@[i as int]);
        match find_modified(captures, bucket.sources[i]) {
            Some(t) => {
                times.push(t);
            },
            None => {},
        }
        i = i + 1;
    }
    assert(bucket.sources@.take(i as int) =~= bucket.sources@);
    needs_regeneration(output, &times)
}

/// The buckets whose tables have to be made again, in the order of the
/// list.
pub open spec fn planned(
    buckets: Seq<BucketView>,
    captures: Seq<Stamped>,
    outputs: Seq<Stamped>,
) -> Seq<BucketView>
    decreases buckets.len(),
{
    if buckets.len() == 0 {
        Seq::empty()
    } else if bucket_is_stale(buckets.last(), captures, outputs) {
        planned(buckets.drop_last(), captures, outputs).push(buckets.last())
    } else {
        planned(buckets.drop_last(), captures, outputs)
    }
}

/// What is planned keeps the order of the buckets: each bucket is planned
/// at most once, with its captures each once in strictly ascending order,
/// and no local day is planned twice.
pub proof fn lemma_planned_sound(
    buckets: Seq<BucketView>,
    captures: Seq<Stamped>,
    outputs: Seq<Stamped>,
)
    ensures
        buckets_sound(buckets) ==> buckets_sound(planned(buckets, captures, outputs)),
        distinct_days(buckets) ==> distinct_days(planned(buckets, captures, outputs)),
    decreases buckets.len(),
{
    if buckets.len() > 0 {
        let rest = buckets.drop_last();
        let last = buckets.last();
        lemma_planned_sound(rest, captures, outputs);
        lemma_planned_within(rest, captures, outputs);
        let q = planned(rest, captures, outputs);
        let p = planned(buckets, captures, outputs);
        if buckets_sound(buckets) {
            assert forall|i: int| 0 <= i < rest.len() implies (#[trigger] rest[i]).sources.len() > 0
                && crate::resolver::ascending(rest[i].sources) by {
                assert(rest[i] == buckets[i]);
            }
            assert(buckets[buckets.len() - 1] == last);
            assert forall|i: int| 0 <= i < p.len() implies (#[trigger] p[i]).sources.len() > 0
                && crate::resolver::ascending(p[i].sources) by {
                if i < q.len() {
                    assert(p[i] == q[i]);
                }
            }
        }
        if distinct_days(buckets) {
            assert forall|i: int, j: int| 0 <= i < j < rest.len() implies (
            #[trigger] rest[i]).local != (#[trigger] rest[j]).local by {
                assert(rest[i] == buckets[i] && rest[j] == buckets[j]);
            }
            assert forall|i: int, j: int| 0 <= i < j < p.len() implies (#[trigger] p[i]).local != (
            #[trigger] p[j]).local by {
                if j < q.len() {
                    assert(p[i] == q[i] && p[j] == q[j]);
                } else {
                    assert(p[i] == q[i]);
                    assert(rest.contains(q[i]));
                    let k = choose|k: int| 0 <= k < rest.len() && rest[k] == q[i];
                    assert(buckets[k] == rest[k]);
                    assert(buckets[buckets.len() - 1] == last);
                }
            }
        }
    }
}

/// Picks the buckets whose tables have to be made again: those whose table
/// is missing or older than a contributing capture, and no others, each
/// once.
pub fn plan_regeneration(
    buckets: &Vec<Bucket>,
    captures: &Vec<Stamped>,
    outputs: &Vec<Stamped>,
) -> (r: Vec<Bucket>)
    ensures
        bucket_views(r@) == planned(bucket_views(buckets@), captures@, outputs@),
        buckets_sound(bucket_views(buckets@)) ==> buckets_sound(bucket_views(r@)),
        distinct_days(bucket_views(buckets@)) ==> distinct_days(bucket_views(r@)),
{
    proof {
        lemma_planned_sound(bucket_views(buckets@), captures@, outputs@);
    }
    let ghost all = bucket_views(buckets@);
    let mut jobs: Vec<Bucket> = Vec::new();
    let mut i: usize = 0;
    assert(bucket_views(jobs@) =~= planned(all.take(0), captures@, outputs@));
    while i < buckets.len()
        invariant
            0 <= i <= buckets@.len(),
            all == bucket_views(buckets@),
            bucket_views(jobs@) == planned(all.take(i as int), captures@, outputs@),
        decreases buckets@.len() - i,
    {
        assert(all.take(i + 1).drop_last() =~= all.take(i as int));
        assert(all.take(i + 1).last() == buckets@[i as int]@);
        if bucket_needs_regeneration(&buckets[i], captures, outputs) {
            let ghost before = bucket_views(jobs@);
            let job = Bucket { local: buckets[i].local, sources: copy_codes(&buckets[i].sources) };
            jobs.push(job);
            assert(bucket_views(jobs@) =~= before.push(buckets@[i as int]@));
        }
        i = i + 1;
    }
    assert(all.take(i as int) =~= all);
    jobs
}

/// The buckets of the rolling strategy: one for each capture, under the
/// capture's own day, in the order of the list.
pub open spec fn mirrored(sources: Seq<u32>) -> Seq<BucketView> {
    Seq::new(sources.len(), |i: int| BucketView { local: sources[i], sources: seq![sources[i]] })
}

/// Maps each capture onto the bucket of its own day.
pub fn mirror_buckets(sources: &Vec<u32>) -> (r: Vec<Bucket>)
    ensures
        bucket_views(r@) == mirrored(sources@),
        buckets_sound(bucket_views(r@)),
{
    let mut buckets: Vec<Bucket> = Vec::new();
    let mut i: usize = 0;
    while i < sources.len()
        invariant
            0 <= i <= sources@.len(),
            bucket_views(buckets@) =~= mirrored(sources@.take(i as int)),
        decreases sources@.len() - i,
    {
        let mut one: Vec<u32> = Vec::new();
        one.push(sources[i]);
        assert(one@ =~= seq![sources@[i as int]]);
        let ghost before = bucket_views(buckets@);
        buckets.push(Bucket { local: sources[i], sources: one });
        assert(bucket_views(buckets@) =~= before.push(
            BucketView { local: sources@[i as int], sources: seq![sources@[i as int]] },
        ));
        assert(bucket_views(buckets@) =~= mirrored(sources@.take(i + 1)));
        i = i + 1;
    }
    assert(sources@.take(i as int) =~= sources@);
    buckets
}

/// A table that is no older than any of its captures is left as it is.
pub proof fn lemma_fresh_output_is_kept(output: u128, times: Seq<u128>)
    requires
        forall|i: int| 0 <= i < times.len() ==> times[i] <= output,
    ensures
        !is_stale(Some(output), times),
{
}

/// A bucket whose table exists and is no older than any capture of the
/// directory is not among those that are made again.
pub proof fn lemma_no_newer_capture_no_regeneration(
    bucket: BucketView,
    captures: Seq<Stamped>,
    outputs: Seq<Stamped>,
)
    requires
        modified_of(outputs, bucket.local).is_some(),
        forall|k: int|
            0 <= k < captures.len() ==> (#[trigger] captures[k]).modified <= modified_of(
                outputs,
                bucket.local,
            ).unwrap(),
    ensures
        !bucket_is_stale(bucket, captures, outputs),
{
    lemma_source_times_bounded(
        bucket.sources,
        captures,
        modified_of(outputs, bucket.local).unwrap(),
    );
}

/// Where no capture was changed after a given time, none of a bucket's
/// times lies after it.
pub proof fn lemma_source_times_bounded(sources: Seq<u32>, captures: Seq<Stamped>, limit: u128)
    requires
        forall|k: int| 0 <= k < captures.len() ==> (#[trigger] captures[k]).modified <= limit,
    ensures
        forall|i: int|
            0 <= i < source_times(sources, captures).len() ==> #[trigger] source_times(
                sources,
                captures,
            )[i] <= limit,
    decreases sources.len(),
{
    if sources.len() > 0 {
        lemma_source_times_bounded(sources.drop_last(), captures, limit);
        lemma_modified_bounded(captures, sources.last(), limit);
        let rest = source_times(sources.drop_last(), captures);
        let all = source_times(sources, captures);
        assert forall|i: int| 0 <= i < all.len() implies #[trigger] all[i] <= limit by {
            if i < rest.len() {
                assert(all[i] == rest[i]);
            }
        }
    } else {
        assert(source_times(sources, captures).len() == 0);
    }
}

/// A time that is looked up is the time of an entry of the list.
pub proof fn lemma_modified_bounded(files: Seq<Stamped>, day: u32, limit: u128)
    requires
        forall|k: int| 0 <= k < files.len() ==> (#[trigger] files[k]).modified <= limit,
    ensures
        modified_of(files, day).is_some() ==> modified_of(files, day).unwrap() <= limit,
    decreases files.len(),
{
    if files.len() > 0 {
        assert(files[files.len() - 1].modified <= limit);
        if files.last().day != day {
            assert forall|k: int| 0 <= k < files.drop_last().len() implies (
            #[trigger] files.drop_last()[k]).modified <= limit by {
                assert(files.drop_last()[k] == files[k]);
            }
            lemma_modified_bounded(files.drop_last(), day, limit);
        }
    }
}

/// Every table that is made again is the table of one of the buckets.
pub proof fn lemma_planned_within(
    buckets: Seq<BucketView>,
    captures: Seq<Stamped>,
    outputs: Seq<Stamped>,
)
    ensures
        forall|j: int|
            0 <= j < planned(buckets, captures, outputs).len() ==> buckets.contains(
                #[trigger] planned(buckets, captures, outputs)[j],
            ) && bucket_is_stale(planned(buckets, captures, outputs)[j], captures, outputs),
    decreases buckets.len(),
{
    if buckets.len() > 0 {
        let rest = buckets.drop_last();
        lemma_planned_within(rest, captures, outputs);
        let p = planned(buckets, captures, outputs);
        assert forall|j: int| 0 <= j < p.len() implies buckets.contains(#[trigger] p[j])
            && bucket_is_stale(p[j], captures, outputs) by {
            if j < planned(rest, captures, outputs).len() {
                let b = planned(rest, captures, outputs)[j];
                assert(rest.contains(b));
                let k = choose|k: int| 0 <= k < rest.len() && rest[k] == b;
                assert(buckets[k] == b);
            } else {
                assert(buckets[buckets.len() - 1] == buckets.last());
            }
        }
    }
}

/// For a local day to which no capture contributes, no table is made: the
/// day has no bucket, and so nothing is planned for it, whatever the
/// directory holds.
pub proof fn lemma_no_contribution_no_regeneration(
    contributions: Seq<Contribution>,
    captures: Seq<Stamped>,
    outputs: Seq<Stamped>,
    local: u32,
)
    requires
        !contributes(contributions, local),
    ensures
        forall|i: int|
            0 <= i < grouped(contributions).len() ==> (#[trigger] grouped(contributions)[i]).local
                != local,
        forall|j: int|
            0 <= j < planned(grouped(contributions), captures, outputs).len() ==> (
            #[trigger] planned(grouped(contributions), captures, outputs)[j]).local != local,
{
    lemma_grouped(contributions);
    lemma_planned_within(grouped(contributions), captures, outputs);
    let g = grouped(contributions);
    let p = planned(g, captures, outputs);
    assert forall|j: int| 0 <= j < p.len() implies (#[trigger] p[j]).local != local by {
        assert(g.contains(p[j]));
        let k = choose|k: int| 0 <= k < g.len() && g[k] == p[j];
        assert(contributes(contributions, g[k].local));
    }
}

/// Decides, for the bounded day, which tables of a host's directory are
/// to be made again: the captures of the directory are mapped onto the
/// local days, and the buckets with a missing or outdated table are
/// picked.
pub fn plan_bounded_day(entries: &Vec<DirEntry>) -> (r: Result<Vec<Bucket>, Error>)
    ensures
        r.is_ok() <==> contributions_of(
            days(files_of_kind(entry_views(entries@), FileKind::Capture)),
        ).is_some(),
        r.is_ok() ==> bucket_views(r.unwrap()@) == planned(
            grouped(
                contributions_of(
                    days(files_of_kind(entry_views(entries@), FileKind::Capture)),
                ).unwrap(),
            ),
            files_of_kind(entry_views(entries@), FileKind::Capture),
            files_of_kind(entry_views(entries@), FileKind::Output),
        ),
        r.is_ok() ==> buckets_sound(bucket_views(r.unwrap()@)) && distinct_days(
            bucket_views(r.unwrap()@),
        ),
        r.is_err() ==> r.unwrap_err() == Error::Parse,
{
    let inventory = take_inventory(entries);
    let sources = days_of(&inventory.captures);
    match resolve_buckets(&sources) {
        Err(e) => Err(e),
        Ok(buckets) => Ok(plan_regeneration(&buckets, &inventory.captures, &inventory.outputs)),
    }
}

/// Decides, for the rolling window, which tables of a host's directory
/// are to be made again: each capture stands for the table of its own day.
pub fn plan_rolling(entries: &Vec<DirEntry>) -> (r: Vec<Bucket>)
    ensures
        bucket_views(r@) == planned(
            mirrored(days(files_of_kind(entry_views(entries@), FileKind::Capture))),
            files_of_kind(entry_views(entries@), FileKind::Capture),
            files_of_kind(entry_views(entries@), FileKind::Output),
        ),
        buckets_sound(bucket_views(r@)),
{
    let inventory = take_inventory(entries);
    let sources = days_of(&inventory.captures);
    let buckets = mirror_buckets(&sources);
    plan_regeneration(&buckets, &inventory.captures, &inventory.outputs)
}

/// How captures are turned into tables.
#[derive(Clone, Copy, Debug, PartialEq, Eq, Structural)]
pub enum Strategy {
    /// One table for each day of the local civil zone, with the rows of
    /// that day alone.
    BoundedDay,
    /// One table for each capture, each row showing what was seen within
    /// the retention, in seconds, before it.
    RollingWindow { retention: u64 },
}

/// The tables that a strategy makes again for a host's directory.
pub open spec fn planned_for(strategy: Strategy, entries: Seq<DirEntryView>) -> Result<
    Seq<BucketView>,
    Error,
> {
    let captures = files_of_kind(entries, FileKind::Capture);
    let outputs = files_of_kind(entries, FileKind::Output);
    match strategy {
        Strategy::BoundedDay => match contributions_of(days(captures)) {
            Some(contributions) => Ok(planned(grouped(contributions), captures, outputs)),
            None => Err(Error::Parse),
        },
        Strategy::RollingWindow { retention } => Ok(
            planned(mirrored(days(captures)), captures, outputs),
        ),
    }
}

/// Decides which tables of a host's directory are to be made again under
/// the strategy that is configured.
pub fn plan_tables(strategy: Strategy, entries: &Vec<DirEntry>) -> (r: Result<Vec<Bucket>, Error>)
    ensures
        (match r {
            Ok(buckets) => Ok(bucket_views(buckets@)),
            Err(e) => Err(e),
        }) == planned_for(strategy, entry_views(entries@)),
        r.is_ok() ==> buckets_sound(bucket_views(r.unwrap()@)),
{
    match strategy {
        Strategy::BoundedDay => plan_bounded_day(entries),
        Strategy::RollingWindow { retention } => Ok(plan_rolling(entries)),
    }
}

} // verus!
