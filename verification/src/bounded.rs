use vstd::prelude::*;
use crate::civil::{local_stamp_at, render_local_stamp};
use crate::error::Error;
use crate::table::{
    data_line, header_line, header_text, label_views, line_text, FieldLabel, LabelView,
};
use crate::rolling::{
    copy_packets, merge_record, merged, packet_views, project, projected, record_views, Packet,
    PacketView, Record, RecordView,
};
use crate::text::{append_bytes, views};

verus! {

/// One decoded record, merged into the day's state and projected: its
/// time in seconds from the epoch and the raw text of each field.
#[derive(Debug)]
pub struct Sample {
    pub timestamp: i64,
    pub values: Vec<Vec<u8>>,
}

/// A sample, with its texts as sequences.
pub struct SampleView {
    pub timestamp: i64,
    pub values: Seq<Seq<u8>>,
}

impl View for Sample {
    type V = SampleView;

    open spec fn view(&self) -> SampleView {
        SampleView { timestamp: self.timestamp, values: views(self.values@) }
    }
}

/// The views of a list of samples.
pub open spec fn sample_views(v: Seq<Sample>) -> Seq<SampleView> {
    Seq::new(v.len(), |i: int| v[i]@)
}

/// Whether a time lies within a bound; both ends belong to the bound.
pub open spec fn in_bound(t: i64, min: i64, max: i64) -> bool {
    min <= t && t <= max
}

/// How many samples lie within the bound.
pub open spec fn bounded_count(samples: Seq<SampleView>, min: i64, max: i64) -> nat
    decreases samples.len(),
{
    if samples.len() == 0 {
        0
    } else if in_bound(samples.last().timestamp, min, max) {
        bounded_count(samples.drop_last(), min, max) + 1
    } else {
        bounded_count(samples.drop_last(), min, max)
    }
}

/// The data rows of the samples within the bound, in the order of the
/// list, each with its time in local civil time; `None` where the time of
/// one of them cannot be rendered.
pub open spec fn bounded_rows(samples: Seq<SampleView>, min: i64, max: i64) -> Option<Seq<u8>>
    decreases samples.len(),
{
    if samples.len() == 0 {
        Some(Seq::empty())
    } else {
        match bounded_rows(samples.drop_last(), min, max) {
            None => None,
            Some(rows) => if in_bound(samples.last().timestamp, min, max) {
                match local_stamp_at(samples.last().timestamp as int) {
                    Some(stamp) => Some(rows + line_text(stamp, samples.last().values)),
                    None => None,
                }
            } else {
                Some(rows)
            },
        }
    }
}

/// The table of a local day: the header row and the rows of the samples
/// within the bound. With no sample within the bound there is no table at
/// all, so that an earlier one is left as it is.
pub open spec fn bounded_day_table(
    labels: Seq<LabelView>,
    samples: Seq<SampleView>,
    min: i64,
    max: i64,
) -> Result<Option<Seq<u8>>, Error> {
    match bounded_rows(samples, min, max) {
        None => Err(Error::Protocol),
        Some(rows) => if bounded_count(samples, min, max) == 0 {
            Ok(None)
        } else {
            Ok(Some(header_text(labels) + rows))
        },
    }
}

/// A table that was written or withheld, with its bytes as a sequence.
pub open spec fn table_view(r: Result<Option<Vec<u8>>, Error>) -> Result<Option<Seq<u8>>, Error> {
    match r {
        Ok(Some(bytes)) => Ok(Some(bytes@)),
        Ok(None) => Ok(None),
        Err(e) => Err(e),
    }
}

/// Where the rows of a prefix cannot be rendered, those of the whole list
/// cannot.
pub proof fn lemma_rows_prefix(samples: Seq<SampleView>, min: i64, max: i64, n: int)
    requires
        0 <= n <= samples.len(),
        bounded_rows(samples.take(n), min, max).is_none(),
    ensures
        bounded_rows(samples, min, max).is_none(),
    decreases samples.len() - n,
{
    if n == samples.len() {
        assert(samples.take(n) =~= samples);
    } else {
        assert(samples.take(n + 1).drop_last() =~= samples.take(n));
        lemma_rows_prefix(samples, min, max, n + 1);
    }
}

/// Writes the table of one local day from the decoded samples of the
/// contributing captures. Samples outside the inclusive bound leave no
/// row. The result is `Ok(None)` exactly when every time can be rendered
/// and no sample lies within the bound: then nothing is to be written.
pub fn convert_bounded_day(
    labels: &Vec<FieldLabel>,
    samples: &Vec<Sample>,
    min: i64,
    max: i64,
) -> (r: Result<Option<Vec<u8>>, Error>)
    ensures
        table_view(r) == bounded_day_table(
            label_views(labels@),
            sample_views(samples@),
            min,
            max,
        ),
{
    let ghost all = sample_views(samples@);
    let mut out: Vec<u8> = header_line(labels);
    let ghost header = out@;
    let mut any: bool = false;
    let mut i: usize = 0;
    assert(out@ =~= header + Seq::<u8>::empty());
    while i < samples.len()
        invariant
            0 <= i <= samples@.len(),
            all == sample_views(samples@),
            bounded_rows(all.take(i as int), min, max).is_some(),
            out@ == header + bounded_rows(all.take(i as int), min, max).unwrap(),
            any == (bounded_count(all.take(i as int), min, max) > 0),
        decreases samples@.len() - i,
    {
        let sample = &samples[i];
        assert(all.take(i + 1).drop_last() =~= all.take(i as int));
        assert(all.take(i + 1).last() == sample@);
        if min <= sample.timestamp && sample.timestamp <= max {
            match render_local_stamp(sample.timestamp) {
                Err(_) => {
                    proof {
                        lemma_rows_prefix(all, min, max, i + 1);
                    }
                    return Err(Error::Protocol);
                },
                Ok(stamp) => {
                    let ghost before = out@;
                    let line = data_line(stamp.as_slice(), &sample.values);
                    append_bytes(&mut out, line.as_slice());
                    any = true;
                    assert(out@ =~= header + (bounded_rows(all.take(i as int), min, max).unwrap()
                        + line@));
                },
            }
        }
        i = i + 1;
    }
    assert(all.take(i as int) =~= all);
    if any {
        Ok(Some(out))
    } else {
        Ok(None)
    }
}

/// The rows of two lists of samples, one after the other, are the rows of
/// the first followed by the rows of the second.
pub proof fn lemma_rows_concat(a: Seq<SampleView>, b: Seq<SampleView>, min: i64, max: i64)
    ensures
        bounded_rows(a + b, min, max) == (match (
            bounded_rows(a, min, max),
            bounded_rows(b, min, max),
        ) {
            (Some(p), Some(q)) => Some(p + q),
            _ => None,
        }),
    decreases b.len(),
{
    if b.len() == 0 {
        assert(a + b =~= a);
        if bounded_rows(a, min, max).is_some() {
            assert(bounded_rows(a, min, max).unwrap() + Seq::<u8>::empty() =~= bounded_rows(
                a,
                min,
                max,
            ).unwrap());
        }
    } else {
        lemma_rows_concat(a, b.drop_last(), min, max);
        assert((a + b).drop_last() =~= a + b.drop_last());
        assert((a + b).last() == b.last());
        match (bounded_rows(a, min, max), bounded_rows(b.drop_last(), min, max)) {
            (Some(p), Some(q)) => {
                if in_bound(b.last().timestamp, min, max) {
                    match local_stamp_at(b.last().timestamp as int) {
                        Some(stamp) => {
                            assert((p + q) + line_text(stamp, b.last().values) =~= p + (q
                                + line_text(stamp, b.last().values)));
                        },
                        None => {},
                    }
                }
            },
            _ => {},
        }
    }
}

/// Samples outside the bound leave no rows.
pub proof fn lemma_rows_outside(b: Seq<SampleView>, min: i64, max: i64)
    requires
        forall|i: int| 0 <= i < b.len() ==> !in_bound((#[trigger] b[i]).timestamp, min, max),
    ensures
        bounded_rows(b, min, max) == Some(Seq::<u8>::empty()),
    decreases b.len(),
{
    if b.len() > 0 {
        assert forall|i: int| 0 <= i < b.drop_last().len() implies !in_bound(
            (#[trigger] b.drop_last()[i]).timestamp,
            min,
            max,
        ) by {
            assert(b.drop_last()[i] == b[i]);
        }
        lemma_rows_outside(b.drop_last(), min, max);
        assert(!in_bound(b[b.len() - 1].timestamp, min, max));
    }
}

/// For samples that all lie within the bound, the bound changes nothing.
pub proof fn lemma_rows_inside(a: Seq<SampleView>, min: i64, max: i64)
    requires
        forall|i: int| 0 <= i < a.len() ==> in_bound((#[trigger] a[i]).timestamp, min, max),
    ensures
        bounded_rows(a, min, max) == bounded_rows(a, i64::MIN, i64::MAX),
    decreases a.len(),
{
    if a.len() > 0 {
        assert forall|i: int| 0 <= i < a.drop_last().len() implies in_bound(
            (#[trigger] a.drop_last()[i]).timestamp,
            min,
            max,
        ) by {
            assert(a.drop_last()[i] == a[i]);
        }
        lemma_rows_inside(a.drop_last(), min, max);
        assert(in_bound(a[a.len() - 1].timestamp, min, max));
    }
}

/// The samples of two adjacent captures, bounded to the span of one of
/// them, give the rows of that capture alone without a bound, whichever of
/// the two comes first in the stream.
pub proof fn lemma_bound_selects_own_span(
    own: Seq<SampleView>,
    other: Seq<SampleView>,
    min: i64,
    max: i64,
)
    requires
        forall|i: int| 0 <= i < own.len() ==> in_bound((#[trigger] own[i]).timestamp, min, max),
        forall|i: int|
            0 <= i < other.len() ==> !in_bound((#[trigger] other[i]).timestamp, min, max),
    ensures
        bounded_rows(own + other, min, max) == bounded_rows(own, i64::MIN, i64::MAX),
        bounded_rows(other + own, min, max) == bounded_rows(own, i64::MIN, i64::MAX),
{
    lemma_rows_concat(own, other, min, max);
    lemma_rows_concat(other, own, min, max);
    lemma_rows_outside(other, min, max);
    lemma_rows_inside(own, min, max);
    match bounded_rows(own, min, max) {
        Some(p) => {
            assert(p + Seq::<u8>::empty() =~= p);
            assert(Seq::<u8>::empty() + p =~= p);
        },
        None => {},
    }
}

/// The bounded day gives a table only where a sample lies within the
/// bound: no table holds the header row alone.
pub proof fn lemma_bounded_day_needs_a_row(
    labels: Seq<LabelView>,
    samples: Seq<SampleView>,
    min: i64,
    max: i64,
)
    ensures
        (bounded_day_table(labels, samples, min, max) matches Ok(Some(_))) ==> bounded_count(
            samples,
            min,
            max,
        ) > 0,
        samples.len() == 0 ==> bounded_day_table(labels, samples, min, max) == Ok::<
            Option<Seq<u8>>,
            Error,
        >(None),
{
}

/// The samples of a day: for each record, what the packets of the schema
/// show after the record was merged into a copy of them. Each record is
/// merged into a fresh copy, so that no row carries values of an earlier
/// record.
pub open spec fn day_samples(
    topology: Seq<PacketView>,
    records: Seq<RecordView>,
) -> Seq<SampleView> {
    Seq::new(
        records.len(),
        |i: int|
            SampleView {
                timestamp: records[i].timestamp,
                values: projected(merged(topology, records[i].packets)),
            },
    )
}

/// Merges each record into a copy of the packets of the schema and lists
/// what the copy shows.
pub fn merge_samples(topology: &Vec<Packet>, records: &Vec<Record>) -> (r: Vec<Sample>)
    ensures
        sample_views(r@) == day_samples(packet_views(topology@), record_views(records@)),
{
    let ghost wanted = day_samples(packet_views(topology@), record_views(records@));
    let mut out: Vec<Sample> = Vec::new();
    let mut i: usize = 0;
    while i < records.len()
        invariant
            0 <= i <= records@.len(),
            wanted == day_samples(packet_views(topology@), record_views(records@)),
            out@.len() == i,
            forall|k: int| 0 <= k < i ==> (#[trigger] out@[k])@ == wanted[k],
        decreases records@.len() - i,
    {
        let mut state = copy_packets(topology);
        merge_record(&mut state, &records[i].packets);
        let values = project(&state);
        let sample = Sample { timestamp: records[i].timestamp, values };
        assert(sample@ == wanted[i as int]);
        out.push(sample);
        i = i + 1;
    }
    assert(sample_views(out@) =~= wanted);
    out
}

/// Writes the table of one local day from the packets of the schema and
/// the decoded records of the contributing captures: each record within
/// the inclusive bound is merged into a copy of the schema's packets and
/// gives one row.
pub fn convert_bounded_records(
    labels: &Vec<FieldLabel>,
    topology: &Vec<Packet>,
    records: &Vec<Record>,
    min: i64,
    max: i64,
) -> (r: Result<Option<Vec<u8>>, Error>)
    ensures
        table_view(r) == bounded_day_table(
            label_views(labels@),
            day_samples(packet_views(topology@), record_views(records@)),
            min,
            max,
        ),
{
    let samples = merge_samples(topology, records);
    convert_bounded_day(labels, &samples, min, max)
}

/// The records of two adjacent captures, decoded as one stream against one
/// schema and bounded to the span of one of the captures, give the rows of
/// that capture's records alone without a bound.
pub proof fn lemma_bound_selects_own_capture(
    topology: Seq<PacketView>,
    own: Seq<RecordView>,
    other: Seq<RecordView>,
    min: i64,
    max: i64,
)
    requires
        forall|i: int| 0 <= i < own.len() ==> in_bound((#[trigger] own[i]).timestamp, min, max),
        forall|i: int|
            0 <= i < other.len() ==> !in_bound((#[trigger] other[i]).timestamp, min, max),
    ensures
        bounded_rows(day_samples(topology, own + other), min, max) == bounded_rows(
            day_samples(topology, own),
            i64::MIN,
            i64::MAX,
        ),
        bounded_rows(day_samples(topology, other + own), min, max) == bounded_rows(
            day_samples(topology, own),
            i64::MIN,
            i64::MAX,
        ),
{
    let a = day_samples(topology, own);
    let b = day_samples(topology, other);
    assert(day_samples(topology, own + other) =~= a + b);
    assert(day_samples(topology, other + own) =~= b + a);
    assert forall|i: int| 0 <= i < a.len() implies in_bound(
        (#[trigger] a[i]).timestamp,
        min,
        max,
    ) by {
        assert(a[i].timestamp == own[i].timestamp);
    }
    assert forall|i: int| 0 <= i < b.len() implies !in_bound(
        (#[trigger] b[i]).timestamp,
        min,
        max,
    ) by {
        assert(b[i].timestamp == other[i].timestamp);
    }
    lemma_bound_selects_own_span(a, b, min, max);
}

} // verus!
