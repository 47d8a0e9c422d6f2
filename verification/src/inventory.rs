use vstd::prelude::*;
use crate::datecode::{decimal_value, lemma_eight_digits_bound, parse_decimal};
use crate::resolver::{classify_filename, file_kind_of, FileKind, Stamped};

verus! {

/// A file of a host's directory: its name and the time of its last
/// change, in nanoseconds from the epoch.
#[derive(Debug)]
pub struct DirEntry {
    pub name: Vec<u8>,
    pub modified: u128,
}

/// A file of a directory, with its name as a sequence.
pub struct DirEntryView {
    pub name: Seq<u8>,
    pub modified: u128,
}

impl View for DirEntry {
    type V = DirEntryView;

    open spec fn view(&self) -> DirEntryView {
        DirEntryView { name: self.name@, modified: self.modified }
    }
}

/// The views of a list of files.
pub open spec fn entry_views(v: Seq<DirEntry>) -> Seq<DirEntryView> {
    Seq::new(v.len(), |i: int| v[i]@)
}

/// The captures and the tables of a host's directory.
#[derive(Debug)]
pub struct Inventory {
    pub captures: Vec<Stamped>,
    pub outputs: Vec<Stamped>,
}

/// The day that the first eight bytes of a name spell.
pub open spec fn entry_day(name: Seq<u8>) -> u32 {
    decimal_value(name.take(8)) as u32
}

/// The files of one kind, each with its day and the time of its last
/// change, in the order of the directory.
pub open spec fn files_of_kind(entries: Seq<DirEntryView>, kind: FileKind) -> Seq<Stamped>
    decreases entries.len(),
{
    if entries.len() == 0 {
        Seq::empty()
    } else if file_kind_of(entries.last().name) == kind {
        files_of_kind(entries.drop_last(), kind).push(
            Stamped { day: entry_day(entries.last().name), modified: entries.last().modified },
        )
    } else {
        files_of_kind(entries.drop_last(), kind)
    }
}

/// Sorts the files of a host's directory into captures and tables; other
/// files are passed over.
pub fn take_inventory(entries: &Vec<DirEntry>) -> (r: Inventory)
    ensures
        r.captures@ == files_of_kind(entry_views(entries@), FileKind::Capture),
        r.outputs@ == files_of_kind(entry_views(entries@), FileKind::Output),
{
    let ghost all = entry_views(entries@);
    let mut captures: Vec<Stamped> = Vec::new();
    let mut outputs: Vec<Stamped> = Vec::new();
    let mut i: usize = 0;
    assert(all.take(0) =~= Seq::<DirEntryView>::empty());
    while i < entries.len()
        invariant
            0 <= i <= entries@.len(),
            all == entry_views(entries@),
            captures@ == files_of_kind(all.take(i as int), FileKind::Capture),
            outputs@ == files_of_kind(all.take(i as int), FileKind::Output),
        decreases entries@.len() - i,
    {
        let entry = &entries[i];
        assert(all.take(i + 1).drop_last() =~= all.take(i as int));
        assert(all.take(i + 1).last() == entry@);
        let kind = classify_filename(entry.name.as_slice());
        if kind == FileKind::Capture || kind == FileKind::Output {
            let head = vstd::slice::slice_subrange(entry.name.as_slice(), 0, 8);
            assert(head@ =~= entry.name@.take(8));
            proof {
                lemma_eight_digits_bound(head@);
            }
            let day = parse_decimal(head);
            assert(day.is_some());
            if let Some(v) = day {
                let file = Stamped { day: v as u32, modified: entry.modified };
                if kind == FileKind::Capture {
                    captures.push(file);
                } else {
                    outputs.push(file);
                }
            }
        }
        i = i + 1;
    }
    assert(all.take(i as int) =~= all);
    Inventory { captures, outputs }
}

/// The days of a list of files, in its order.
pub open spec fn days(files: Seq<Stamped>) -> Seq<u32> {
    Seq::new(files.len(), |i: int| files[i].day)
}

/// Lists the days of a list of files, in its order.
pub fn days_of(files: &Vec<Stamped>) -> (r: Vec<u32>)
    ensures
        r@ == days(files@),
{
    let mut out: Vec<u32> = Vec::new();
    let mut i: usize = 0;
    while i < files.len()
        invariant
            0 <= i <= files@.len(),
            out@ =~= Seq::new(i as nat, |k: int| files@[k].day),
        decreases files@.len() - i,
    {
        out.push(files[i].day);
        i = i + 1;
    }
    assert(out@ =~= days(files@));
    out
}

} // verus!
