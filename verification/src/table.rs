use vstd::prelude::*;
use crate::text::{append_bytes, views};

verus! {

/// Name and unit of one column.
#[derive(Debug)]
pub struct FieldLabel {
    pub name: Vec<u8>,
    pub unit: Vec<u8>,
}

/// A column's name and unit as sequences.
pub struct LabelView {
    pub name: Seq<u8>,
    pub unit: Seq<u8>,
}

impl View for FieldLabel {
    type V = LabelView;

    open spec fn view(&self) -> LabelView {
        LabelView { name: self.name@, unit: self.unit@ }
    }
}

/// The views of a list of labels.
pub open spec fn label_views(v: Seq<FieldLabel>) -> Seq<LabelView> {
    Seq::new(v.len(), |i: int| v[i]@)
}

/// The title of the first column: `Datum`.
pub open spec fn time_title() -> Seq<u8> {
    seq![68u8, 97u8, 116u8, 117u8, 109u8]
}

/// One column title with the tab before it: the name alone, or the name
/// and the unit in square brackets where the unit is not empty.
pub open spec fn label_text(label: LabelView) -> Seq<u8> {
    if label.unit.len() > 0 {
        seq![9u8] + label.name + seq![32u8, 91u8] + label.unit + seq![93u8]
    } else {
        seq![9u8] + label.name
    }
}

/// The column titles, each with the tab before it.
pub open spec fn labels_text(labels: Seq<LabelView>) -> Seq<u8>
    decreases labels.len(),
{
    if labels.len() == 0 {
        Seq::empty()
    } else {
        labels_text(labels.drop_last()) + label_text(labels.last())
    }
}

/// The header row, with its line end.
pub open spec fn header_text(labels: Seq<LabelView>) -> Seq<u8> {
    time_title() + labels_text(labels) + seq![10u8]
}

/// The values of a row, each with the tab before it.
pub open spec fn values_text(values: Seq<Seq<u8>>) -> Seq<u8>
    decreases values.len(),
{
    if values.len() == 0 {
        Seq::empty()
    } else {
        values_text(values.drop_last()) + seq![9u8] + values.last()
    }
}

/// A data row, with its line end: the time, then the values.
pub open spec fn line_text(stamp: Seq<u8>, values: Seq<Seq<u8>>) -> Seq<u8> {
    stamp + values_text(values) + seq![10u8]
}

/// Writes the header row: the title of the time column, then one title
/// for each field, separated by tabs.
pub fn header_line(labels: &Vec<FieldLabel>) -> (r: Vec<u8>)
    ensures
        r@ == header_text(label_views(labels@)),
{
    let ghost all = label_views(labels@);
    let mut out: Vec<u8> = vec![68u8, 97u8, 116u8, 117u8, 109u8];
    assert(out@ =~= time_title() + labels_text(all.take(0)));
    let mut i: usize = 0;
    while i < labels.len()
        invariant
            0 <= i <= labels@.len(),
            all == label_views(labels@),
            out@ == time_title() + labels_text(all.take(i as int)),
        decreases labels@.len() - i,
    {
        let ghost before = out@;
        let label = &labels[i];
        assert(all.take(i + 1).drop_last() =~= all.take(i as int));
        assert(all.take(i + 1).last() == label@);
        out.push(9u8);
        append_bytes(&mut out, label.name.as_slice());
        if label.unit.len() > 0 {
            out.push(32u8);
            out.push(91u8);
            append_bytes(&mut out, label.unit.as_slice());
            out.push(93u8);
        }
        assert(out@ =~= before + label_text(label@));
        assert(out@ =~= time_title() + labels_text(all.take(i + 1)));
        i = i + 1;
    }
    assert(all.take(i as int) =~= all);
    out.push(10u8);
    out
}

/// Writes a data row: the rendered time, then the raw values as they are,
/// separated by tabs.
pub fn data_line(stamp: &[u8], values: &Vec<Vec<u8>>) -> (r: Vec<u8>)
    ensures
        r@ == line_text(stamp@, views(values@)),
{
    let ghost all = views(values@);
    let mut out: Vec<u8> = Vec::new();
    append_bytes(&mut out, stamp);
    assert(out@ =~= stamp@ + values_text(all.take(0)));
    let mut i: usize = 0;
    while i < values.len()
        invariant
            0 <= i <= values@.len(),
            all == views(values@),
            out@ == stamp@ + values_text(all.take(i as int)),
        decreases values@.len() - i,
    {
        let ghost before = out@;
        assert(all.take(i + 1).drop_last() =~= all.take(i as int));
        assert(all.take(i + 1).last() == values@[i as int]@);
        out.push(9u8);
        append_bytes(&mut out, values[i].as_slice());
        assert(out@ =~= before + seq![9u8] + values@[i as int]@);
        assert(out@ =~= stamp@ + values_text(all.take(i + 1)));
        i = i + 1;
    }
    assert(all.take(i as int) =~= all);
    out.push(10u8);
    out
}

} // verus!
