use vstd::prelude::*;
use crate::civil::{render_utc_stamp, utc_stamp_at};
use crate::error::Error;
use crate::plan::Strategy;
use crate::table::{
    data_line, header_line, header_text, label_views, line_text, FieldLabel, LabelView,
};
use crate::text::{append_bytes, views};

verus! {

/// The retention of the rolling window where none is configured: fifteen
/// minutes, in seconds.
pub const DEFAULT_RETENTION: u64 = 900;

/// One packet of a record or of the retained state: which packet it is,
/// when it was seen, whether its values count, and the raw text of each of
/// its fields.
#[derive(Debug)]
pub struct Packet {
    pub id: u64,
    pub timestamp: i64,
    pub live: bool,
    pub values: Vec<Vec<u8>>,
}

/// A packet, with its texts as sequences.
pub struct PacketView {
    pub id: u64,
    pub timestamp: i64,
    pub live: bool,
    pub values: Seq<Seq<u8>>,
}

impl View for Packet {
    type V = PacketView;

    open spec fn view(&self) -> PacketView {
        PacketView {
            id: self.id,
            timestamp: self.timestamp,
            live: self.live,
            values: views(self.values@),
        }
    }
}

/// The views of a list of packets.
pub open spec fn packet_views(v: Seq<Packet>) -> Seq<PacketView> {
    Seq::new(v.len(), |i: int| v[i]@)
}

/// One decoded record: its time and the packets that it carries.
#[derive(Debug)]
pub struct Record {
    pub timestamp: i64,
    pub packets: Vec<Packet>,
}

/// A record, with its packets as a sequence.
pub struct RecordView {
    pub timestamp: i64,
    pub packets: Seq<PacketView>,
}

impl View for Record {
    type V = RecordView;

    open spec fn view(&self) -> RecordView {
        RecordView { timestamp: self.timestamp, packets: packet_views(self.packets@) }
    }
}

/// The views of a list of records.
pub open spec fn record_views(v: Seq<Record>) -> Seq<RecordView> {
    Seq::new(v.len(), |i: int| v[i]@)
}

/// Whether a packet seen at `seen` is older than the window that ends at
/// `now`.
pub open spec fn outdated(seen: i64, now: i64, retention: u64) -> bool {
    seen + retention < now
}

/// A packet whose values no longer count.
pub open spec fn cleared(p: PacketView) -> PacketView {
    PacketView { id: p.id, timestamp: p.timestamp, live: false, values: p.values }
}

/// The state with the values of every packet cleared.
pub open spec fn all_cleared(state: Seq<PacketView>) -> Seq<PacketView> {
    Seq::new(state.len(), |i: int| cleared(state[i]))
}

/// The state after the packets older than the window were cleared.
pub open spec fn evicted(state: Seq<PacketView>, now: i64, retention: u64) -> Seq<PacketView> {
    Seq::new(
        state.len(),
        |i: int|
            if state[i].live && outdated(state[i].timestamp, now, retention) {
                cleared(state[i])
            } else {
                state[i]
            },
    )
}

/// The first place at or behind `from` where the packet `id` stands; the
/// length of the state where it does not.
pub open spec fn slot_from(state: Seq<PacketView>, id: u64, from: int) -> int
    decreases state.len() - from,
{
    if from < 0 || from >= state.len() {
        state.len() as int
    } else if state[from].id == id {
        from
    } else {
        slot_from(state, id, from + 1)
    }
}

/// The state after one packet was merged: it takes the place of the
/// packet of its kind, or a new place at the end.
pub open spec fn merged_one(state: Seq<PacketView>, p: PacketView) -> Seq<PacketView> {
    let at = slot_from(state, p.id, 0);
    if at < state.len() {
        state.update(at, p)
    } else {
        state.push(p)
    }
}

/// The state after the packets of a record were merged, in their order.
pub open spec fn merged(state: Seq<PacketView>, packets: Seq<PacketView>) -> Seq<PacketView>
    decreases packets.len(),
{
    if packets.len() == 0 {
        state
    } else {
        merged_one(merged(state, packets.drop_last()), packets.last())
    }
}

/// The values that a state shows: those of the packets that count, in the
/// order of the state. A cleared packet shows none.
pub open spec fn projected(state: Seq<PacketView>) -> Seq<Seq<u8>>
    decreases state.len(),
{
    if state.len() == 0 {
        Seq::empty()
    } else if state.last().live {
        projected(state.drop_last()) + state.last().values
    } else {
        projected(state.drop_last())
    }
}

/// A state after a run of records: for each record, in order, the
/// eviction at its time and then the merge of its packets.
pub open spec fn advanced(
    state: Seq<PacketView>,
    records: Seq<RecordView>,
    retention: u64,
) -> Seq<PacketView>
    decreases records.len(),
{
    if records.len() == 0 {
        state
    } else {
        merged(
            evicted(
                advanced(state, records.drop_last(), retention),
                records.last().timestamp,
                retention,
            ),
            records.last().packets,
        )
    }
}

/// The retained state after a run of records: the seed with every value
/// cleared, advanced by the records.
pub open spec fn rolling_state(
    seed: Seq<PacketView>,
    records: Seq<RecordView>,
    retention: u64,
) -> Seq<PacketView> {
    advanced(all_cleared(seed), records, retention)
}

/// The key of a packet: channel, destination, source and command, each in
/// its own digits of the number.
pub open spec fn packet_key_of(channel: u8, destination: u16, source: u16, command: u16) -> u64 {
    (channel as u64 * 0x1_0000_0000_0000 + destination as u64 * 0x1_0000_0000 + source as u64
        * 0x1_0000 + command as u64) as u64
}

/// Gives the key under which the packets of one kind are merged.
pub fn packet_key(channel: u8, destination: u16, source: u16, command: u16) -> (r: u64)
    ensures
        r == packet_key_of(channel, destination, source, command),
        r == channel as int * 0x1_0000_0000_0000 + destination as int * 0x1_0000_0000
            + source as int * 0x1_0000 + command as int,
{
    let c: u64 = channel as u64;
    let d: u64 = destination as u64;
    let s: u64 = source as u64;
    let k: u64 = command as u64;
    c * 0x1_0000_0000_0000 + d * 0x1_0000_0000 + s * 0x1_0000 + k
}

/// Packets of two kinds never share a key.
pub proof fn lemma_packet_key_injective(
    c1: u8,
    d1: u16,
    s1: u16,
    k1: u16,
    c2: u8,
    d2: u16,
    s2: u16,
    k2: u16,
)
    requires
        packet_key_of(c1, d1, s1, k1) == packet_key_of(c2, d2, s2, k2),
    ensures
        c1 == c2 && d1 == d2 && s1 == s2 && k1 == k2,
{
}

/// Whether the values of a decoded packet count. Under the bounded day
/// every packet of the schema keeps its columns, filled or empty; under
/// the rolling window a packet without frames shows nothing.
pub open spec fn packet_counts(strategy: Strategy, frame_count: u8) -> bool {
    strategy == Strategy::BoundedDay || frame_count > 0
}

/// Decides whether the values of a decoded packet count.
pub fn packet_is_live(strategy: Strategy, frame_count: u8) -> (r: bool)
    ensures
        r == packet_counts(strategy, frame_count),
{
    match strategy {
        Strategy::BoundedDay => true,
        Strategy::RollingWindow { retention } => frame_count > 0,
    }
}

/// The data rows of a run of records: for each the record's own time in
/// UTC and what the retained state shows after it; `None` where a time
/// cannot be rendered.
pub open spec fn rolling_rows(
    seed: Seq<PacketView>,
    records: Seq<RecordView>,
    retention: u64,
) -> Option<Seq<u8>>
    decreases records.len(),
{
    if records.len() == 0 {
        Some(Seq::empty())
    } else {
        match (
            rolling_rows(seed, records.drop_last(), retention),
            utc_stamp_at(records.last().timestamp as int),
        ) {
            (Some(rows), Some(stamp)) => Some(
                rows + line_text(stamp, projected(rolling_state(seed, records, retention))),
            ),
            _ => None,
        }
    }
}

/// The table of the rolling window: the header row and one row for each
/// record. It is a table even without records.
pub open spec fn rolling_table(
    labels: Seq<LabelView>,
    seed: Seq<PacketView>,
    records: Seq<RecordView>,
    retention: u64,
) -> Result<Seq<u8>, Error> {
    match rolling_rows(seed, records, retention) {
        Some(rows) => Ok(header_text(labels) + rows),
        None => Err(Error::Protocol),
    }
}

/// Copies a list of texts.
pub fn copy_texts(texts: &Vec<Vec<u8>>) -> (r: Vec<Vec<u8>>)
    ensures
        views(r@) == views(texts@),
{
    let mut out: Vec<Vec<u8>> = Vec::new();
    let mut i: usize = 0;
    while i < texts.len()
        invariant
            0 <= i <= texts@.len(),
            views(out@) =~= views(texts@).take(i as int),
        decreases texts@.len() - i,
    {
        let mut one: Vec<u8> = Vec::new();
        append_bytes(&mut one, texts[i].as_slice());
        assert(one@ =~= texts@[i as int]@);
        let ghost before = views(out@);
        out.push(one);
        assert(views(out@) =~= before.push(one@));
        assert(views(texts@).take(i + 1) =~= views(texts@).take(i as int).push(
            texts@[i as int]@,
        ));
        i = i + 1;
    }
    assert(views(texts@).take(i as int) =~= views(texts@));
    out
}

/// Copies a packet.
pub fn copy_packet(p: &Packet) -> (r: Packet)
    ensures
        r@ == p@,
{
    Packet { id: p.id, timestamp: p.timestamp, live: p.live, values: copy_texts(&p.values) }
}

/// Copies a list of packets.
pub fn copy_packets(packets: &Vec<Packet>) -> (r: Vec<Packet>)
    ensures
        packet_views(r@) == packet_views(packets@),
{
    let mut out: Vec<Packet> = Vec::new();
    let mut i: usize = 0;
    while i < packets.len()
        invariant
            0 <= i <= packets@.len(),
            packet_views(out@) =~= packet_views(packets@).take(i as int),
        decreases packets@.len() - i,
    {
        let p = copy_packet(&packets[i]);
        let ghost before = packet_views(out@);
        out.push(p);
        assert(packet_views(out@) =~= before.push(p@));
        assert(packet_views(packets@).take(i + 1) =~= packet_views(packets@).take(i as int).push(
            packets@[i as int]@,
        ));
        i = i + 1;
    }
    assert(packet_views(packets@).take(i as int) =~= packet_views(packets@));
    out
}

/// Copies a state and clears the values of every packet in the copy.
pub fn seed_state(topology: &Vec<Packet>) -> (r: Vec<Packet>)
    ensures
        packet_views(r@) == all_cleared(packet_views(topology@)),
{
    let mut out: Vec<Packet> = Vec::new();
    let mut i: usize = 0;
    while i < topology.len()
        invariant
            0 <= i <= topology@.len(),
            packet_views(out@) =~= all_cleared(packet_views(topology@)).take(i as int),
        decreases topology@.len() - i,
    {
        let mut p = copy_packet(&topology[i]);
        p.live = false;
        let ghost before = packet_views(out@);
        out.push(p);
        assert(packet_views(out@) =~= before.push(p@));
        assert(all_cleared(packet_views(topology@)).take(i + 1) =~= all_cleared(
            packet_views(topology@),
        ).take(i as int).push(cleared(topology@[i as int]@)));
        i = i + 1;
    }
    assert(all_cleared(packet_views(topology@)).take(i as int) =~= all_cleared(
        packet_views(topology@),
    ));
    out
}

/// Clears every packet of the state that is older than the window which
/// ends at `now`.
pub fn evict(state: &mut Vec<Packet>, now: i64, retention: u64)
    ensures
        packet_views(final(state)@) == evicted(packet_views(old(state)@), now, retention),
{
    let ghost before = packet_views(state@);
    let mut i: usize = 0;
    while i < state.len()
        invariant
            0 <= i <= state@.len(),
            state@.len() == before.len(),
            forall|j: int| 0 <= j < i ==> state@[j]@ == evicted(before, now, retention)[j],
            forall|j: int| i <= j < state@.len() ==> state@[j]@ == before[j],
        decreases state@.len() - i,
    {
        let is_old: bool = state[i].live && (state[i].timestamp as i128) + (retention as i128) < (
        now as i128);
        if is_old {
            let ghost mid = state@;
            let mut p = state.remove(i);
            p.live = false;
            state.insert(i, p);
            assert(state@ =~= mid.update(i as int, p));
        }
        i = i + 1;
    }
    assert(packet_views(state@) =~= evicted(before, now, retention));
}

/// Merges one packet into the state.
pub fn merge_packet(state: &mut Vec<Packet>, packet: Packet)
    ensures
        packet_views(final(state)@) == merged_one(packet_views(old(state)@), packet@),
{
    let ghost before = packet_views(state@);
    let mut at: usize = 0;
    while at < state.len() && state[at].id != packet.id
        invariant
            0 <= at <= state@.len(),
            state@ == old(state)@,
            before == packet_views(state@),
            slot_from(before, packet.id, 0) == slot_from(before, packet.id, at as int),
        decreases state@.len() - at,
    {
        assert(before[at as int].id == state@[at as int].id);
        at = at + 1;
    }
    if at < state.len() {
        assert(before[at as int].id == state@[at as int].id);
        let _ = state.remove(at);
        state.insert(at, packet);
        assert(packet_views(state@) =~= before.update(at as int, packet@));
    } else {
        state.push(packet);
        assert(packet_views(state@) =~= before.push(packet@));
    }
}

/// Merges the packets of a record into the state, in their order.
pub fn merge_record(state: &mut Vec<Packet>, packets: &Vec<Packet>)
    ensures
        packet_views(final(state)@) == merged(
            packet_views(old(state)@),
            packet_views(packets@),
        ),
{
    let ghost before = packet_views(state@);
    let ghost all = packet_views(packets@);
    let mut i: usize = 0;
    assert(all.take(0) =~= Seq::<PacketView>::empty());
    while i < packets.len()
        invariant
            0 <= i <= packets@.len(),
            all == packet_views(packets@),
            packet_views(state@) == merged(before, all.take(i as int)),
        decreases packets@.len() - i,
    {
        assert(all.take(i + 1).drop_last() =~= all.take(i as int));
        assert(all.take(i + 1).last() == packets@[i as int]@);
        merge_packet(state, copy_packet(&packets[i]));
        i = i + 1;
    }
    assert(all.take(i as int) =~= all);
}

/// Lists the values that the state shows.
pub fn project(state: &Vec<Packet>) -> (r: Vec<Vec<u8>>)
    ensures
        views(r@) == projected(packet_views(state@)),
{
    let ghost all = packet_views(state@);
    let mut out: Vec<Vec<u8>> = Vec::new();
    let mut i: usize = 0;
    assert(views(out@) =~= projected(all.take(0)));
    while i < state.len()
        invariant
            0 <= i <= state@.len(),
            all == packet_views(state@),
            views(out@) == projected(all.take(i as int)),
        decreases state@.len() - i,
    {
        assert(all.take(i + 1).drop_last() =~= all.take(i as int));
        assert(all.take(i + 1).last() == state@[i as int]@);
        if state[i].live {
            let ghost before = views(out@);
            let ghost these = views(state@[i as int].values@);
            let mut k: usize = 0;
            while k < state[i].values.len()
                invariant
                    0 <= k <= these.len(),
                    0 <= i < state@.len(),
                    these == views(state@[i as int].values@),
                    views(out@) =~= before + these.take(k as int),
                decreases these.len() - k,
            {
                let mut one: Vec<u8> = Vec::new();
                append_bytes(&mut one, state[i].values[k].as_slice());
                assert(one@ =~= these[k as int]);
                let ghost shown = views(out@);
                out.push(one);
                assert(views(out@) =~= shown.push(one@));
                assert(these.take(k + 1) =~= these.take(k as int).push(these[k as int]));
                k = k + 1;
            }
            assert(these.take(k as int) =~= these);
        }
        i = i + 1;
    }
    assert(all.take(i as int) =~= all);
    out
}

/// Where the rows of a prefix cannot be rendered, those of the whole run
/// cannot.
pub proof fn lemma_rolling_prefix(
    seed: Seq<PacketView>,
    records: Seq<RecordView>,
    retention: u64,
    n: int,
)
    requires
        0 <= n <= records.len(),
        rolling_rows(seed, records.take(n), retention).is_none(),
    ensures
        rolling_rows(seed, records, retention).is_none(),
    decreases records.len() - n,
{
    if n == records.len() {
        assert(records.take(n) =~= records);
    } else {
        assert(records.take(n + 1).drop_last() =~= records.take(n));
        lemma_rolling_prefix(seed, records, retention, n + 1);
    }
}

/// Writes the table of the rolling window from the packets of the schema
/// and the decoded records, in stream order. For each record the packets
/// older than the window are cleared first, then the record is merged,
/// then a row is written. The table is written even without records.
pub fn convert_rolling(
    labels: &Vec<FieldLabel>,
    topology: &Vec<Packet>,
    records: &Vec<Record>,
    retention: u64,
) -> (r: Result<Vec<u8>, Error>)
    ensures
        (match r {
            Ok(bytes) => Ok(bytes@),
            Err(e) => Err(e),
        }) == rolling_table(
            label_views(labels@),
            packet_views(topology@),
            record_views(records@),
            retention,
        ),
{
    let ghost seed = packet_views(topology@);
    let ghost all = record_views(records@);
    let mut out: Vec<u8> = header_line(labels);
    let ghost header = out@;
    let mut state: Vec<Packet> = seed_state(topology);
    let mut i: usize = 0;
    assert(out@ =~= header + Seq::<u8>::empty());
    while i < records.len()
        invariant
            0 <= i <= records@.len(),
            all == record_views(records@),
            seed == packet_views(topology@),
            packet_views(state@) == rolling_state(seed, all.take(i as int), retention),
            rolling_rows(seed, all.take(i as int), retention).is_some(),
            out@ == header + rolling_rows(seed, all.take(i as int), retention).unwrap(),
        decreases records@.len() - i,
    {
        let record = &records[i];
        assert(all.take(i + 1).drop_last() =~= all.take(i as int));
        assert(all.take(i + 1).last() == record@);
        evict(&mut state, record.timestamp, retention);
        merge_record(&mut state, &record.packets);
        match render_utc_stamp(record.timestamp) {
            Err(_) => {
                proof {
                    lemma_rolling_prefix(seed, all, retention, i + 1);
                }
                return Err(Error::Protocol);
            },
            Ok(stamp) => {
                let shown = project(&state);
                let line = data_line(stamp.as_slice(), &shown);
                append_bytes(&mut out, line.as_slice());
                assert(out@ =~= header + (rolling_rows(
                    seed,
                    all.take(i as int),
                    retention,
                ).unwrap() + line@));
            },
        }
        i = i + 1;
    }
    assert(all.take(i as int) =~= all);
    Ok(out)
}

/// The place that is found holds the packet, and no earlier one does.
pub proof fn lemma_slot(state: Seq<PacketView>, id: u64, from: int)
    requires
        0 <= from <= state.len(),
    ensures
        from <= slot_from(state, id, from) <= state.len(),
        slot_from(state, id, from) < state.len() ==> state[slot_from(state, id, from)].id == id,
    decreases state.len() - from,
{
    if from < state.len() && state[from].id != id {
        lemma_slot(state, id, from + 1);
    }
}

/// Merging packets of other kinds leaves a packet of the state as it is.
pub proof fn lemma_merge_keeps_others(state: Seq<PacketView>, packets: Seq<PacketView>, i: int)
    requires
        0 <= i < state.len(),
        forall|k: int| 0 <= k < packets.len() ==> (#[trigger] packets[k]).id != state[i].id,
    ensures
        merged(state, packets).len() >= state.len(),
        merged(state, packets)[i] == state[i],
    decreases packets.len(),
{
    if packets.len() > 0 {
        let rest = packets.drop_last();
        assert forall|k: int| 0 <= k < rest.len() implies (#[trigger] rest[k]).id
            != state[i].id by {
            assert(rest[k] == packets[k]);
        }
        lemma_merge_keeps_others(state, rest, i);
        let m = merged(state, rest);
        assert(packets[packets.len() - 1].id != state[i].id);
        lemma_slot(m, packets.last().id, 0);
    }
}

/// A packet that is older than the window at the time of a record, or
/// cleared already, and that the record does not bring again, is cleared
/// in the state after the record.
pub proof fn lemma_outdated_packet_is_cleared(
    state: Seq<PacketView>,
    record: RecordView,
    retention: u64,
    i: int,
)
    requires
        0 <= i < state.len(),
        !state[i].live || outdated(state[i].timestamp, record.timestamp, retention),
        forall|k: int|
            0 <= k < record.packets.len() ==> (#[trigger] record.packets[k]).id != state[i].id,
    ensures
        i < merged(evicted(state, record.timestamp, retention), record.packets).len(),
        merged(evicted(state, record.timestamp, retention), record.packets)[i].id == state[i].id,
        !merged(evicted(state, record.timestamp, retention), record.packets)[i].live,
{
    let e = evicted(state, record.timestamp, retention);
    assert(e[i].id == state[i].id && !e[i].live);
    lemma_merge_keeps_others(e, record.packets, i);
}

/// A cleared packet adds nothing to what the state shows: the state shows
/// the same with the packet as without it.
pub proof fn lemma_cleared_shows_nothing(state: Seq<PacketView>, i: int)
    requires
        0 <= i < state.len(),
        !state[i].live,
    ensures
        projected(state) == projected(state.remove(i)),
    decreases state.len(),
{
    if i == state.len() - 1 {
        assert(state.remove(i) =~= state.drop_last());
    } else {
        lemma_cleared_shows_nothing(state.drop_last(), i);
        assert(state.remove(i).drop_last() =~= state.drop_last().remove(i));
        assert(state.remove(i).last() == state.last());
    }
}

/// The rolling window gives a table whenever every time can be rendered,
/// and without records the table is the header row alone.
pub proof fn lemma_rolling_always_writes(
    labels: Seq<LabelView>,
    seed: Seq<PacketView>,
    records: Seq<RecordView>,
    retention: u64,
)
    ensures
        rolling_rows(seed, records, retention).is_some() ==> rolling_table(
            labels,
            seed,
            records,
            retention,
        ).is_ok(),
        records.len() == 0 ==> rolling_table(labels, seed, records, retention) == Ok::<
            Seq<u8>,
            Error,
        >(header_text(labels)),
{
    if records.len() == 0 {
        assert(header_text(labels) + Seq::<u8>::empty() =~= header_text(labels));
    }
}

/// Through a run of records that do not bring a packet again, the packet
/// keeps its place, its kind and its time, and once cleared it stays
/// cleared.
pub proof fn lemma_unrefreshed_packet_keeps_place(
    state: Seq<PacketView>,
    records: Seq<RecordView>,
    retention: u64,
    i: int,
)
    requires
        0 <= i < state.len(),
        forall|k: int, m: int|
            0 <= k < records.len() && 0 <= m < records[k].packets.len() ==> (
            #[trigger] records[k].packets[m]).id != state[i].id,
    ensures
        i < advanced(state, records, retention).len(),
        advanced(state, records, retention)[i].id == state[i].id,
        advanced(state, records, retention)[i].timestamp == state[i].timestamp,
        advanced(state, records, retention)[i].live ==> state[i].live,
    decreases records.len(),
{
    if records.len() > 0 {
        let rest = records.drop_last();
        let last = records.last();
        assert forall|k: int, m: int|
            0 <= k < rest.len() && 0 <= m < rest[k].packets.len() implies (
        #[trigger] rest[k].packets[m]).id != state[i].id by {
            assert(rest[k] == records[k]);
        }
        lemma_unrefreshed_packet_keeps_place(state, rest, retention, i);
        let s = advanced(state, rest, retention);
        let e = evicted(s, last.timestamp, retention);
        assert(e[i].id == s[i].id && e[i].timestamp == s[i].timestamp && (e[i].live
            ==> s[i].live));
        assert forall|m: int| 0 <= m < last.packets.len() implies (#[trigger] last.packets[m]).id
            != e[i].id by {
            assert(records[records.len() - 1].packets[m].id != state[i].id);
        }
        lemma_merge_keeps_others(e, last.packets, i);
    }
}

/// The rolling window over a run of records: a packet that stands in the
/// state with time T, and that no record of the run brings again, is
/// cleared after the run if the last record of the run lies more than the
/// retention after T; what the state then shows is what it would show
/// without the packet.
pub proof fn lemma_outdated_packet_leaves_run(
    state: Seq<PacketView>,
    records: Seq<RecordView>,
    retention: u64,
    i: int,
)
    requires
        0 <= i < state.len(),
        records.len() > 0,
        outdated(state[i].timestamp, records.last().timestamp, retention),
        forall|k: int, m: int|
            0 <= k < records.len() && 0 <= m < records[k].packets.len() ==> (
            #[trigger] records[k].packets[m]).id != state[i].id,
    ensures
        i < advanced(state, records, retention).len(),
        advanced(state, records, retention)[i].id == state[i].id,
        !advanced(state, records, retention)[i].live,
        projected(advanced(state, records, retention)) == projected(
            advanced(state, records, retention).remove(i),
        ),
{
    let rest = records.drop_last();
    let last = records.last();
    assert forall|k: int, m: int|
        0 <= k < rest.len() && 0 <= m < rest[k].packets.len() implies (
    #[trigger] rest[k].packets[m]).id != state[i].id by {
        assert(rest[k] == records[k]);
    }
    lemma_unrefreshed_packet_keeps_place(state, rest, retention, i);
    let s = advanced(state, rest, retention);
    assert forall|m: int| 0 <= m < last.packets.len() implies (#[trigger] last.packets[m]).id
        != s[i].id by {
        assert(records[records.len() - 1].packets[m].id != state[i].id);
    }
    lemma_outdated_packet_is_cleared(s, last, retention, i);
    lemma_cleared_shows_nothing(advanced(state, records, retention), i);
}

/// The state after two runs of records, one after the other, is the state
/// after the first run advanced by the second.
pub proof fn lemma_advanced_split(
    state: Seq<PacketView>,
    first: Seq<RecordView>,
    second: Seq<RecordView>,
    retention: u64,
)
    ensures
        advanced(state, first + second, retention) == advanced(
            advanced(state, first, retention),
            second,
            retention,
        ),
    decreases second.len(),
{
    if second.len() == 0 {
        assert(first + second =~= first);
    } else {
        lemma_advanced_split(state, first, second.drop_last(), retention);
        assert((first + second).drop_last() =~= first + second.drop_last());
        assert((first + second).last() == second.last());
    }
}

/// The eviction of the rolling window over a run of records: a packet that
/// stands in the retained state with time T after some records, and that
/// none of the records that follow brings again, shows nothing in the row
/// of a following record that lies more than the retention after T.
pub proof fn lemma_outdated_packet_leaves_window(
    seed: Seq<PacketView>,
    before: Seq<RecordView>,
    after: Seq<RecordView>,
    retention: u64,
    i: int,
)
    requires
        0 <= i < rolling_state(seed, before, retention).len(),
        after.len() > 0,
        outdated(
            rolling_state(seed, before, retention)[i].timestamp,
            after.last().timestamp,
            retention,
        ),
        forall|k: int, m: int|
            0 <= k < after.len() && 0 <= m < after[k].packets.len() ==> (
            #[trigger] after[k].packets[m]).id != rolling_state(seed, before, retention)[i].id,
    ensures
        i < rolling_state(seed, before + after, retention).len(),
        rolling_state(seed, before + after, retention)[i].id == rolling_state(
            seed,
            before,
            retention,
        )[i].id,
        !rolling_state(seed, before + after, retention)[i].live,
        projected(rolling_state(seed, before + after, retention)) == projected(
            rolling_state(seed, before + after, retention).remove(i),
        ),
{
    lemma_advanced_split(all_cleared(seed), before, after, retention);
    lemma_outdated_packet_leaves_run(rolling_state(seed, before, retention), after, retention, i);
}

} // verus!
