use vstd::prelude::*;
use crate::civil::{capture_local_days, local_days_of};
use crate::datecode::{all_digits, date_of_number, number_is_date, DateCode};
use crate::error::Error;
use crate::text::matches_at;

verus! {

/// What a file of a host's directory is, by its name.
#[derive(Clone, Copy, Debug, PartialEq, Eq, Structural)]
pub enum FileKind {
    /// A cached capture: eight digits and `.vbus`.
    Capture,
    /// A derived table: eight digits and `.csv`.
    Output,
    /// Anything else.
    Other,
}

/// The ending of a capture's name: `.vbus`.
pub open spec fn capture_ending() -> Seq<u8> {
    seq![46u8, 118u8, 98u8, 117u8, 115u8]
}

/// The ending of a table's name: `.csv`.
pub open spec fn output_ending() -> Seq<u8> {
    seq![46u8, 99u8, 115u8, 118u8]
}

/// The kind of a file name: its first eight bytes are digits, and what
/// follows is exactly one of the two endings.
pub open spec fn file_kind_of(name: Seq<u8>) -> FileKind {
    if name.len() < 8 || !all_digits(name.take(8)) {
        FileKind::Other
    } else if name.len() == 13 && matches_at(name, 8, capture_ending()) {
        FileKind::Capture
    } else if name.len() == 12 && matches_at(name, 8, output_ending()) {
        FileKind::Output
    } else {
        FileKind::Other
    }
}

/// Tells captures and tables from the other files of a host's directory.
pub fn classify_filename(name: &[u8]) -> (r: FileKind)
    ensures
        r == file_kind_of(name@),
{
    if name.len() < 8 {
        return FileKind::Other;
    }
    let mut k: usize = 0;
    while k < 8
        invariant
            0 <= k <= 8,
            name@.len() >= 8,
            forall|j: int| 0 <= j < k ==> crate::datecode::is_digit(name@[j]),
        decreases 8 - k,
    {
        let b: u8 = name[k];
        if b < 48 || b > 57 {
            assert(name@.take(8)[k as int] == name@[k as int]);
            return FileKind::Other;
        }
        k = k + 1;
    }
    assert(all_digits(name@.take(8))) by {
        assert forall|j: int| 0 <= j < 8 implies crate::datecode::is_digit(
            #[trigger] name@.take(8)[j],
        ) by {
            assert(name@.take(8)[j] == name@[j]);
        }
    }
    let capture = vec![46u8, 118u8, 98u8, 117u8, 115u8];
    let output = vec![46u8, 99u8, 115u8, 118u8];
    assert(capture@ =~= capture_ending());
    assert(output@ =~= output_ending());
    if name.len() == 13 && crate::text::has_at(name, 8, capture.as_slice()) {
        FileKind::Capture
    } else if name.len() == 12 && crate::text::has_at(name, 8, output.as_slice()) {
        FileKind::Output
    } else {
        FileKind::Other
    }
}

/// A file of a given day with the time of its last change, in nanoseconds
/// from the epoch.
#[derive(Clone, Copy, Debug, PartialEq, Eq, Structural)]
pub struct Stamped {
    pub day: u32,
    pub modified: u128,
}

/// A capture with the two local days on which its first and its last
/// second fall.
#[derive(Clone, Copy, Debug, PartialEq, Eq, Structural)]
pub struct Contribution {
    pub source: u32,
    pub first_local: u32,
    pub last_local: u32,
}

/// A local day with the captures that contribute to its table, each once,
/// in strictly ascending order.
#[derive(Debug)]
pub struct Bucket {
    pub local: u32,
    pub sources: Vec<u32>,
}

/// A bucket, with its captures as a sequence.
pub struct BucketView {
    pub local: u32,
    pub sources: Seq<u32>,
}

impl View for Bucket {
    type V = BucketView;

    open spec fn view(&self) -> BucketView {
        BucketView { local: self.local, sources: self.sources@ }
    }
}

/// The views of a list of buckets.
pub open spec fn bucket_views(v: Seq<Bucket>) -> Seq<BucketView> {
    Seq::new(v.len(), |i: int| v[i]@)
}

/// Whether a list of day codes ascends strictly, so that no code stands
/// twice.
pub open spec fn ascending(s: Seq<u32>) -> bool {
    forall|i: int, j: int| 0 <= i < j < s.len() ==> s[i] < s[j]
}

/// An ascending list with a code put at its place; a list that holds the
/// code already stays as it is.
pub open spec fn insert_sorted(s: Seq<u32>, x: u32) -> Seq<u32>
    decreases s.len(),
{
    if s.len() == 0 {
        seq![x]
    } else if s.last() < x {
        s.push(x)
    } else if s.last() == x {
        s
    } else {
        insert_sorted(s.drop_last(), x).push(s.last())
    }
}

/// Putting a code at the place behind which every code is greater, and
/// before which the nearest is less, is the sorted insertion; where the
/// nearest before is the code itself, the list stays as it is.
pub proof fn lemma_insert_at(s: Seq<u32>, x: u32, at: int)
    requires
        0 <= at <= s.len(),
        forall|j: int| at <= j < s.len() ==> s[j] > x,
        at > 0 ==> s[at - 1] <= x,
    ensures
        at > 0 && s[at - 1] == x ==> insert_sorted(s, x) == s,
        !(at > 0 && s[at - 1] == x) ==> insert_sorted(s, x) == s.insert(at, x),
    decreases s.len(),
{
    if s.len() == 0 {
        assert(s.insert(at, x) =~= seq![x]);
    } else if at == s.len() {
        assert(s.insert(at, x) =~= s.push(x));
    } else {
        lemma_insert_at(s.drop_last(), x, at);
        assert(s.insert(at, x) =~= s.drop_last().insert(at, x).push(s.last()));
        assert(s.drop_last().push(s.last()) =~= s);
    }
}

/// Sorted insertion keeps a list strictly ascending, makes it at most one
/// longer and adds no code but the new one.
pub proof fn lemma_insert_sorted_ascending(s: Seq<u32>, x: u32)
    requires
        ascending(s),
    ensures
        ascending(insert_sorted(s, x)),
        s.len() <= insert_sorted(s, x).len() <= s.len() + 1,
        forall|i: int|
            0 <= i < insert_sorted(s, x).len() ==> #[trigger] insert_sorted(s, x)[i] == x
                || s.contains(insert_sorted(s, x)[i]),
    decreases s.len(),
{
    let r = insert_sorted(s, x);
    if s.len() == 0 {
    } else if s.last() < x {
        assert forall|i: int| 0 <= i < r.len() implies #[trigger] r[i] == x || s.contains(
            r[i],
        ) by {
            if i < s.len() {
                assert(s[i] == r[i]);
            }
        }
    } else if s.last() == x {
        assert forall|i: int| 0 <= i < r.len() implies #[trigger] r[i] == x || s.contains(
            r[i],
        ) by {
            assert(s[i] == r[i]);
        }
    } else {
        let t = s.drop_last();
        lemma_insert_sorted_ascending(t, x);
        let q = insert_sorted(t, x);
        assert forall|i: int| 0 <= i < q.len() implies #[trigger] q[i] < s.last() by {
            if q[i] != x {
                assert(t.contains(q[i]));
                let k = choose|k: int| 0 <= k < t.len() && t[k] == q[i];
                assert(s[k] == t[k]);
            }
        }
        assert forall|i: int| 0 <= i < r.len() implies #[trigger] r[i] == x || s.contains(
            r[i],
        ) by {
            if i < q.len() {
                if q[i] != x {
                    assert(t.contains(q[i]));
                    let k = choose|k: int| 0 <= k < t.len() && t[k] == q[i];
                    assert(s[k] == t[k]);
                }
            } else {
                assert(s[s.len() - 1] == s.last());
            }
        }
    }
}

/// The first place at or behind `from` where a bucket of the local day
/// stands; the length of the list where none does.
pub open spec fn position_from(buckets: Seq<BucketView>, local: u32, from: int) -> int
    decreases buckets.len() - from,
{
    if from < 0 || from >= buckets.len() {
        buckets.len() as int
    } else if buckets[from].local == local {
        from
    } else {
        position_from(buckets, local, from + 1)
    }
}

/// The place that is found holds the local day, and no earlier one does.
pub proof fn lemma_position(buckets: Seq<BucketView>, local: u32, from: int)
    requires
        0 <= from <= buckets.len(),
    ensures
        from <= position_from(buckets, local, from) <= buckets.len(),
        position_from(buckets, local, from) < buckets.len() ==> buckets[position_from(
            buckets,
            local,
            from,
        )].local == local,
        forall|j: int|
            from <= j < position_from(buckets, local, from) ==> (#[trigger] buckets[j]).local
                != local,
    decreases buckets.len() - from,
{
    if from < buckets.len() && buckets[from].local != local {
        lemma_position(buckets, local, from + 1);
    }
}

/// The buckets after a capture was put under a local day: into the day's
/// bucket where there is one, unless it stands there already; into a new
/// bucket at the end where there is none.
pub open spec fn register(buckets: Seq<BucketView>, local: u32, source: u32) -> Seq<BucketView> {
    let at = position_from(buckets, local, 0);
    if at < buckets.len() {
        buckets.update(
            at,
            BucketView { local, sources: insert_sorted(buckets[at].sources, source) },
        )
    } else {
        buckets.push(BucketView { local, sources: seq![source] })
    }
}

/// The buckets of a list of contributions: each capture, in the order of
/// the list, is put under the local day of its first second and then under
/// that of its last. A capture whose two ends fall on one local day stands
/// once in that day's bucket.
pub open spec fn grouped(contributions: Seq<Contribution>) -> Seq<BucketView>
    decreases contributions.len(),
{
    if contributions.len() == 0 {
        Seq::empty()
    } else {
        let c = contributions.last();
        register(
            register(grouped(contributions.drop_last()), c.first_local, c.source),
            c.last_local,
            c.source,
        )
    }
}

/// Whether some capture of the list contributes to a local day.
pub open spec fn contributes(contributions: Seq<Contribution>, local: u32) -> bool {
    exists|k: int|
        0 <= k < contributions.len() && ((#[trigger] contributions[k]).first_local == local
            || contributions[k].last_local == local)
}

/// Whether every bucket holds a capture, and holds its captures each
/// once, in strictly ascending order.
pub open spec fn buckets_sound(buckets: Seq<BucketView>) -> bool {
    forall|i: int|
        0 <= i < buckets.len() ==> (#[trigger] buckets[i]).sources.len() > 0 && ascending(
            buckets[i].sources,
        )
}

/// Whether no local day has two buckets.
pub open spec fn distinct_days(buckets: Seq<BucketView>) -> bool {
    forall|i: int, j: int|
        0 <= i < j < buckets.len() ==> (#[trigger] buckets[i]).local != (
        #[trigger] buckets[j]).local
}

/// Whether a capture stands in the bucket of a local day.
pub open spec fn holds(buckets: Seq<BucketView>, local: u32, source: u32) -> bool {
    exists|i: int|
        0 <= i < buckets.len() && (#[trigger] buckets[i]).local == local
            && buckets[i].sources.contains(source)
}

/// Sorted insertion keeps every code of the list and holds the new one.
pub proof fn lemma_insert_sorted_contains(s: Seq<u32>, x: u32)
    ensures
        insert_sorted(s, x).contains(x),
        forall|y: u32| s.contains(y) ==> insert_sorted(s, x).contains(y),
    decreases s.len(),
{
    let r = insert_sorted(s, x);
    if s.len() == 0 {
        assert(r[0] == x);
    } else if s.last() < x {
        assert(r[s.len() as int] == x);
        assert forall|y: u32| s.contains(y) implies r.contains(y) by {
            let k = choose|k: int| 0 <= k < s.len() && s[k] == y;
            assert(r[k] == y);
        }
    } else if s.last() == x {
        assert(s[s.len() - 1] == x);
    } else {
        let t = s.drop_last();
        lemma_insert_sorted_contains(t, x);
        let q = insert_sorted(t, x);
        let kx = choose|k: int| 0 <= k < q.len() && q[k] == x;
        assert(r[kx] == x);
        assert forall|y: u32| s.contains(y) implies r.contains(y) by {
            let k = choose|k: int| 0 <= k < s.len() && s[k] == y;
            if k == s.len() - 1 {
                assert(r[r.len() - 1] == y);
            } else {
                assert(t[k] == y);
                assert(t.contains(y));
                assert(q.contains(y));
                let m = choose|m: int| 0 <= m < q.len() && q[m] == y;
                assert(r[m] == y);
            }
        }
    }
}

/// Putting a capture under a local day puts it into that day's bucket,
/// keeps what the buckets held, and leaves no day with two buckets.
pub proof fn lemma_register_holds(buckets: Seq<BucketView>, local: u32, source: u32)
    requires
        distinct_days(buckets),
    ensures
        distinct_days(register(buckets, local, source)),
        holds(register(buckets, local, source), local, source),
        forall|l: u32, s: u32|
            holds(buckets, l, s) ==> holds(register(buckets, local, source), l, s),
{
    lemma_position(buckets, local, 0);
    let at = position_from(buckets, local, 0);
    let r = register(buckets, local, source);
    if at < buckets.len() {
        lemma_insert_sorted_contains(buckets[at].sources, source);
        assert(r[at].local == local && r[at].sources.contains(source));
    } else {
        assert(r[at].local == local && r[at].sources[0] == source);
    }
    assert forall|l: u32, s: u32| holds(buckets, l, s) implies holds(r, l, s) by {
        let i = choose|i: int|
            0 <= i < buckets.len() && (#[trigger] buckets[i]).local == l
                && buckets[i].sources.contains(s);
        if i == at {
            assert(r[i].local == l && r[i].sources.contains(s));
        } else {
            assert(r[i] == buckets[i]);
        }
    }
    assert forall|i: int, j: int| 0 <= i < j < r.len() implies (#[trigger] r[i]).local != (
    #[trigger] r[j]).local by {
        if j < buckets.len() {
            assert(r[i].local == buckets[i].local && r[j].local == buckets[j].local);
        } else {
            assert(r[i].local == buckets[i].local);
        }
    }
}

/// No local day has two buckets, and every capture stands in the bucket
/// of the local day of its first second and in that of its last.
pub proof fn lemma_grouped_complete(contributions: Seq<Contribution>)
    ensures
        distinct_days(grouped(contributions)),
        forall|k: int|
            0 <= k < contributions.len() ==> holds(
                grouped(contributions),
                (#[trigger] contributions[k]).first_local,
                contributions[k].source,
            ) && holds(
                grouped(contributions),
                contributions[k].last_local,
                contributions[k].source,
            ),
    decreases contributions.len(),
{
    if contributions.len() > 0 {
        let c = contributions.last();
        let rest = contributions.drop_last();
        lemma_grouped_complete(rest);
        let g0 = grouped(rest);
        lemma_register_holds(g0, c.first_local, c.source);
        let g1 = register(g0, c.first_local, c.source);
        lemma_register_holds(g1, c.last_local, c.source);
        let g2 = register(g1, c.last_local, c.source);
        assert forall|k: int| 0 <= k < contributions.len() implies holds(
            g2,
            (#[trigger] contributions[k]).first_local,
            contributions[k].source,
        ) && holds(g2, contributions[k].last_local, contributions[k].source) by {
            if k < rest.len() {
                assert(contributions[k] == rest[k]);
                assert(holds(g0, rest[k].first_local, rest[k].source));
                assert(holds(g0, rest[k].last_local, rest[k].source));
                assert(holds(g1, rest[k].first_local, rest[k].source));
                assert(holds(g1, rest[k].last_local, rest[k].source));
            } else {
                assert(contributions[k] == c);
                assert(holds(g1, c.first_local, c.source));
            }
        }
    }
}

/// Putting a capture under a local day keeps the buckets sound and adds no
/// day but that one.
pub proof fn lemma_register(buckets: Seq<BucketView>, local: u32, source: u32)
    requires
        buckets_sound(buckets),
    ensures
        buckets_sound(register(buckets, local, source)),
        forall|i: int|
            0 <= i < register(buckets, local, source).len() ==> (#[trigger] register(
                buckets,
                local,
                source,
            )[i]).local == local || (i < buckets.len() && register(buckets, local, source)[i].local
                == buckets[i].local),
{
    lemma_position(buckets, local, 0);
    let at = position_from(buckets, local, 0);
    if at < buckets.len() {
        lemma_insert_sorted_ascending(buckets[at].sources, source);
    }
    let r = register(buckets, local, source);
    assert forall|i: int| 0 <= i < r.len() implies (#[trigger] r[i]).sources.len() > 0
        && ascending(r[i].sources) by {
        if i != at {
            assert(r[i] == buckets[i]);
        }
    }
}

/// Every bucket holds at least one capture, in ascending order, and stands
/// for a local day to which a capture of the list contributes: a local day
/// without a contributing capture has no bucket.
pub proof fn lemma_grouped(contributions: Seq<Contribution>)
    ensures
        buckets_sound(grouped(contributions)),
        forall|i: int|
            0 <= i < grouped(contributions).len() ==> contributes(
                contributions,
                (#[trigger] grouped(contributions)[i]).local,
            ),
    decreases contributions.len(),
{
    if contributions.len() > 0 {
        let c = contributions.last();
        let rest = contributions.drop_last();
        lemma_grouped(rest);
        let g0 = grouped(rest);
        lemma_register(g0, c.first_local, c.source);
        let g1 = register(g0, c.first_local, c.source);
        lemma_register(g1, c.last_local, c.source);
        let g2 = register(g1, c.last_local, c.source);
        assert(contributions[contributions.len() - 1] == c);
        assert forall|i: int| 0 <= i < g2.len() implies contributes(
            contributions,
            (#[trigger] g2[i]).local,
        ) by {
            let day = g2[i].local;
            if day == c.last_local || day == c.first_local {
            } else {
                assert(g1[i].local == day);
                assert(g0[i].local == day);
                assert(contributes(rest, day));
                let k = choose|k: int|
                    0 <= k < rest.len() && ((#[trigger] rest[k]).first_local == day
                        || rest[k].last_local == day);
                assert(contributions[k] == rest[k]);
            }
        }
    }
}

/// Copies a list of day codes.
pub fn copy_codes(codes: &Vec<u32>) -> (r: Vec<u32>)
    ensures
        r@ == codes@,
{
    let mut out: Vec<u32> = Vec::new();
    let mut i: usize = 0;
    while i < codes.len()
        invariant
            0 <= i <= codes@.len(),
            out@ == codes@.take(i as int),
        decreases codes@.len() - i,
    {
        out.push(codes[i]);
        assert(out@ =~= codes@.take(i + 1));
        i = i + 1;
    }
    assert(codes@.take(i as int) =~= codes@);
    out
}

/// Puts a capture under a local day.
pub fn register_capture(buckets: &mut Vec<Bucket>, local: u32, source: u32)
    ensures
        bucket_views(final(buckets)@) == register(bucket_views(old(buckets)@), local, source),
{
    let ghost before = bucket_views(buckets@);
    let mut at: usize = 0;
    while at < buckets.len() && buckets[at].local != local
        invariant
            0 <= at <= buckets@.len(),
            buckets@ == old(buckets)@,
            position_from(before, local, 0) == position_from(before, local, at as int),
            before == bucket_views(buckets@),
        decreases buckets@.len() - at,
    {
        assert(before[at as int].local == buckets@[at as int].local);
        at = at + 1;
    }
    if at < buckets.len() {
        assert(before[at as int].local == buckets@[at as int].local);
        let mut bucket = buckets.remove(at);
        let ghost sources = bucket.sources@;
        let mut k: usize = bucket.sources.len();
        while k > 0 && bucket.sources[k - 1] > source
            invariant
                0 <= k <= sources.len(),
                bucket.sources@ == sources,
                forall|j: int| k <= j < sources.len() ==> sources[j] > source,
            decreases k,
        {
            k = k - 1;
        }
        proof {
            lemma_insert_at(sources, source, k as int);
        }
        if k == 0 || bucket.sources[k - 1] != source {
            bucket.sources.insert(k, source);
        }
        buckets.insert(at, bucket);
        assert(bucket_views(buckets@) =~= register(before, local, source));
    } else {
        let mut sources: Vec<u32> = Vec::new();
        sources.push(source);
        assert(sources@ =~= seq![source]);
        buckets.push(Bucket { local, sources });
        assert(bucket_views(buckets@) =~= register(before, local, source));
    }
}

/// Groups captures into the buckets of the local days to which they
/// contribute.
pub fn group_contributions(contributions: &Vec<Contribution>) -> (r: Vec<Bucket>)
    ensures
        bucket_views(r@) == grouped(contributions@),
        buckets_sound(bucket_views(r@)),
        distinct_days(bucket_views(r@)),
        only_placed(bucket_views(r@), contributions@),
        forall|k: int|
            0 <= k < contributions@.len() ==> holds(
                bucket_views(r@),
                (#[trigger] contributions@[k]).first_local,
                contributions@[k].source,
            ) && holds(bucket_views(r@), contributions@[k].last_local, contributions@[k].source),
{
    proof {
        lemma_grouped(contributions@);
        lemma_grouped_complete(contributions@);
        lemma_grouped_only(contributions@);
    }
    let mut buckets: Vec<Bucket> = Vec::new();
    let mut i: usize = 0;
    assert(bucket_views(buckets@) =~= grouped(contributions@.take(0)));
    while i < contributions.len()
        invariant
            0 <= i <= contributions@.len(),
            bucket_views(buckets@) == grouped(contributions@.take(i as int)),
        decreases contributions@.len() - i,
    {
        let c = contributions[i];
        assert(contributions@.take(i + 1).drop_last() =~= contributions@.take(i as int));
        assert(contributions@.take(i + 1).last() == c);
        register_capture(&mut buckets, c.first_local, c.source);
        register_capture(&mut buckets, c.last_local, c.source);
        i = i + 1;
    }
    assert(contributions@.take(i as int) =~= contributions@);
    buckets
}

/// The contribution of one capture, where its day code is a date and the
/// calendar places both of its ends.
pub open spec fn contribution_of(source: u32) -> Option<Contribution> {
    if !number_is_date(source as nat) {
        None
    } else {
        match local_days_of(date_of_number(source as nat)) {
            Some((first, last)) => Some(
                Contribution {
                    source,
                    first_local: first.number() as u32,
                    last_local: last.number() as u32,
                },
            ),
            None => None,
        }
    }
}

/// The contributions of a list of captures, where each has one.
pub open spec fn contributions_of(sources: Seq<u32>) -> Option<Seq<Contribution>>
    decreases sources.len(),
{
    if sources.len() == 0 {
        Some(Seq::empty())
    } else {
        match (contributions_of(sources.drop_last()), contribution_of(sources.last())) {
            (Some(rest), Some(c)) => Some(rest.push(c)),
            _ => None,
        }
    }
}

/// Finds the two local days of one capture.
pub fn contribution(source: u32) -> (r: Result<Contribution, Error>)
    ensures
        r.is_ok() <==> contribution_of(source).is_some(),
        r.is_ok() ==> Some(r.unwrap()) == contribution_of(source),
        r.is_err() ==> r.unwrap_err() == Error::Parse,
{
    match DateCode::from_number(source) {
        Err(e) => Err(e),
        Ok(day) => match capture_local_days(day) {
            Err(e) => Err(e),
            Ok((first, last)) => Ok(
                Contribution {
                    source,
                    first_local: first.to_number(),
                    last_local: last.to_number(),
                },
            ),
        },
    }
}

/// Maps the captures of a host, given by their UTC day codes, onto the
/// buckets of the local days. A day code that is no date, or that the
/// calendar cannot place, fails the whole resolution.
pub fn resolve_buckets(sources: &Vec<u32>) -> (r: Result<Vec<Bucket>, Error>)
    ensures
        r.is_ok() <==> contributions_of(sources@).is_some(),
        r.is_ok() ==> bucket_views(r.unwrap()@) == grouped(contributions_of(sources@).unwrap()),
        r.is_ok() ==> buckets_sound(bucket_views(r.unwrap()@)) && distinct_days(
            bucket_views(r.unwrap()@),
        ),
        r.is_err() ==> r.unwrap_err() == Error::Parse,
{
    let mut contributions: Vec<Contribution> = Vec::new();
    let mut i: usize = 0;
    assert(sources@.take(0) =~= Seq::<u32>::empty());
    while i < sources.len()
        invariant
            0 <= i <= sources@.len(),
            contributions_of(sources@.take(i as int)) == Some(contributions@),
        decreases sources@.len() - i,
    {
        assert(sources@.take(i + 1).drop_last() =~= sources@.take(i as int));
        assert(sources@.take(i + 1).last() == sources@[i as int]);
        match contribution(sources[i]) {
            Err(e) => {
                proof {
                    lemma_contributions_prefix(sources@, i + 1);
                }
                return Err(e);
            },
            Ok(c) => {
                contributions.push(c);
            },
        }
        i = i + 1;
    }
    assert(sources@.take(i as int) =~= sources@);
    Ok(group_contributions(&contributions))
}

/// Where a prefix of the captures has no contributions, the whole list has
/// none.
pub proof fn lemma_contributions_prefix(sources: Seq<u32>, n: int)
    requires
        0 <= n <= sources.len(),
        contributions_of(sources.take(n)).is_none(),
    ensures
        contributions_of(sources).is_none(),
    decreases sources.len() - n,
{
    if n == sources.len() {
        assert(sources.take(n) =~= sources);
    } else {
        assert(sources.take(n + 1).drop_last() =~= sources.take(n));
        lemma_contributions_prefix(sources, n + 1);
    }
}

/// Whether a capture of the list has one of its ends on a local day.
pub open spec fn placed(contributions: Seq<Contribution>, local: u32, source: u32) -> bool {
    exists|k: int|
        0 <= k < contributions.len() && (#[trigger] contributions[k]).source == source && (
        contributions[k].first_local == local || contributions[k].last_local == local)
}

/// Whether every capture in a bucket has one of its ends on the bucket's
/// local day.
pub open spec fn only_placed(buckets: Seq<BucketView>, contributions: Seq<Contribution>) -> bool {
    forall|i: int, j: int|
        0 <= i < buckets.len() && 0 <= j < buckets[i].sources.len() ==> placed(
            contributions,
            buckets[i].local,
            #[trigger] buckets[i].sources[j],
        )
}

/// Putting a capture under a local day adds that capture to that day's
/// bucket and nothing else to any bucket.
pub proof fn lemma_register_only(buckets: Seq<BucketView>, local: u32, source: u32)
    requires
        buckets_sound(buckets),
    ensures
        forall|i: int, j: int|
            0 <= i < register(buckets, local, source).len() && 0 <= j < register(
                buckets,
                local,
                source,
            )[i].sources.len() ==> (register(buckets, local, source)[i].local == local
                && #[trigger] register(buckets, local, source)[i].sources[j] == source) || (i
                < buckets.len() && register(buckets, local, source)[i].local == buckets[i].local
                && buckets[i].sources.contains(register(buckets, local, source)[i].sources[j])),
{
    lemma_position(buckets, local, 0);
    let at = position_from(buckets, local, 0);
    let r = register(buckets, local, source);
    if at < buckets.len() {
        lemma_insert_sorted_ascending(buckets[at].sources, source);
    }
    assert forall|i: int, j: int| 0 <= i < r.len() && 0 <= j < r[i].sources.len() implies (
    r[i].local == local && #[trigger] r[i].sources[j] == source) || (i < buckets.len()
        && r[i].local == buckets[i].local && buckets[i].sources.contains(r[i].sources[j])) by {
        if i == at {
            if at < buckets.len() {
                let q = insert_sorted(buckets[at].sources, source);
                assert(r[i].sources == q);
                assert(q[j] == source || buckets[at].sources.contains(q[j]));
            }
        } else {
            assert(r[i] == buckets[i]);
            assert(buckets[i].sources[j] == r[i].sources[j]);
        }
    }
}

/// A bucket holds no capture but those that have an end on its local day:
/// with `lemma_grouped_complete`, the captures of a bucket are exactly the
/// captures that contribute to its day, each once.
pub proof fn lemma_grouped_only(contributions: Seq<Contribution>)
    ensures
        only_placed(grouped(contributions), contributions),
    decreases contributions.len(),
{
    if contributions.len() > 0 {
        let c = contributions.last();
        let rest = contributions.drop_last();
        lemma_grouped_only(rest);
        lemma_grouped(rest);
        let g0 = grouped(rest);
        lemma_register(g0, c.first_local, c.source);
        lemma_register_only(g0, c.first_local, c.source);
        let g1 = register(g0, c.first_local, c.source);
        lemma_register_only(g1, c.last_local, c.source);
        let g2 = register(g1, c.last_local, c.source);
        assert(contributions[contributions.len() - 1] == c);
        assert forall|l: u32, s: u32| placed(rest, l, s) implies placed(contributions, l, s) by {
            let k = choose|k: int|
                0 <= k < rest.len() && (#[trigger] rest[k]).source == s && (rest[k].first_local
                    == l || rest[k].last_local == l);
            assert(contributions[k] == rest[k]);
        }
        assert forall|i: int, j: int|
            0 <= i < g1.len() && 0 <= j < g1[i].sources.len() implies placed(
            contributions,
            g1[i].local,
            #[trigger] g1[i].sources[j],
        ) by {
            if g1[i].local == c.first_local && g1[i].sources[j] == c.source {
            } else {
                let s = g1[i].sources[j];
                assert(g0[i].sources.contains(s));
                let m = choose|m: int| 0 <= m < g0[i].sources.len() && g0[i].sources[m] == s;
                assert(placed(rest, g0[i].local, g0[i].sources[m]));
            }
        }
        assert forall|i: int, j: int|
            0 <= i < g2.len() && 0 <= j < g2[i].sources.len() implies placed(
            contributions,
            g2[i].local,
            #[trigger] g2[i].sources[j],
        ) by {
            if g2[i].local == c.last_local && g2[i].sources[j] == c.source {
            } else {
                let s = g2[i].sources[j];
                assert(g1[i].sources.contains(s));
                let m = choose|m: int| 0 <= m < g1[i].sources.len() && g1[i].sources[m] == s;
                assert(placed(contributions, g1[i].local, g1[i].sources[m]));
            }
        }
    }
}

} // verus!
