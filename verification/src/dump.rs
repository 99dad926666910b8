//! Writer of page-access traces in the form of a waveform: one wire per
//! page, a wire of 64 bits for the instruction pointer, and one timestamp
//! per step.  The writer decides what goes into the trace; encoding it is
//! left to whoever holds the file.

use vstd::prelude::*;
use vstd::slice::slice_to_vec;
use vstd::string::StringExecFns;
use crate::page_access::{PageAccess, Permission};
use crate::page_table::PAGE_SIZE;
use crate::wire::{
    bits,
    initial_changes,
    level_changes,
    names_view,
    spec_bits,
    target_levels,
    wire_names,
    VCDStatefulSet,
    WireChange,
};

verus! {

/// Number of wires that a trace has beyond the pages of the enclave.
pub const SPARE_PAGES: usize = 100;

/// Width in bits of the wire of the instruction pointer.
pub const ERIP_WIDTH: u32 = 64;

/// The pages of the accesses of `items` that use their page in the given
/// way, in order.
pub open spec fn pages_used(items: Seq<PageAccess>, permission: Permission) -> Seq<usize>
    decreases items.len(),
{
    if items.len() == 0 {
        Seq::empty()
    } else if items.last().spec_uses(permission) {
        pages_used(items.drop_last(), permission).push(items.last().page)
    } else {
        pages_used(items.drop_last(), permission)
    }
}

/// Every page of `pages` is below `size`.
pub open spec fn pages_below(pages: Seq<usize>, size: nat) -> bool {
    forall|i: int| 0 <= i < pages.len() ==> #[trigger] pages[i] < size
}

/// The pages used in some way are below `size` exactly if every access
/// that uses its page in that way names a page below `size`.
pub proof fn lemma_pages_below(items: Seq<PageAccess>, permission: Permission, size: nat)
    ensures
        pages_below(pages_used(items, permission), size) <==> forall|i: int|
            0 <= i < items.len() && (#[trigger] items[i]).spec_uses(permission) ==> items[i].page
                < size,
    decreases items.len(),
{
    if items.len() > 0 {
        let front = items.drop_last();
        lemma_pages_below(front, permission, size);
        let used = pages_used(items, permission);
        if pages_below(used, size) {
            assert forall|i: int|
                0 <= i < items.len() && (#[trigger] items[i]).spec_uses(
                    permission,
                ) implies items[i].page < size by {
                if i < front.len() {
                    assert(front[i] == items[i]);
                    assert forall|k: int|
                        0 <= k < pages_used(front, permission).len() implies #[trigger] pages_used(
                        front,
                        permission,
                    )[k] < size by {
                        assert(used[k] == pages_used(front, permission)[k]);
                    }
                } else {
                    assert(used[used.len() - 1] == items[i].page);
                }
            }
        }
        if forall|i: int|
            0 <= i < items.len() && (#[trigger] items[i]).spec_uses(permission) ==> items[i].page
                < size {
            assert forall|i: int|
                0 <= i < front.len() && (#[trigger] front[i]).spec_uses(
                    permission,
                ) implies front[i].page < size by {
                assert(front[i] == items[i]);
            }
            assert(items[items.len() - 1] == items.last());
        }
    }
}

/// Whether every access of `items` that uses its page in the given way
/// names a page below `size`.
fn accesses_below(items: &[PageAccess], permission: Permission, size: usize) -> (result: bool)
    ensures
        result == pages_below(pages_used(items@, permission), size as nat),
{
    let mut below = true;
    let mut i: usize = 0;
    while i < items.len() && below
        invariant
            i <= items@.len(),
            below ==> forall|j: int|
                0 <= j < i && (#[trigger] items@[j]).spec_uses(permission) ==> items@[j].page
                    < size,
            !below ==> 0 < i && items@[i - 1].page >= size && items@[i - 1].spec_uses(permission),
        decreases items@.len() - i,
    {
        if items[i].page >= size && items[i].uses(permission) {
            below = false;
        }
        i += 1;
    }
    proof {
        lemma_pages_below(items@, permission, size as nat);
    }
    below
}

/// Replaces `pages` by the pages of the accesses of `items` that use their
/// page in the given way.
fn collect_pages(pages: &mut Vec<usize>, items: &[PageAccess], permission: Permission)
    ensures
        final(pages)@ == pages_used(items@, permission),
{
    pages.clear();
    let mut i: usize = 0;
    assert(items@.take(0) =~= Seq::<PageAccess>::empty());
    while i < items.len()
        invariant
            i <= items@.len(),
            pages@ == pages_used(items@.take(i as int), permission),
        decreases items@.len() - i,
    {
        proof {
            let next = items@.take(i + 1);
            assert(next.drop_last() =~= items@.take(i as int));
            assert(next.last() == items@[i as int]);
        }
        if items[i].uses(permission) {
            pages.push(items[i].page);
        }
        i += 1;
    }
    assert(items@.take(i as int) =~= items@);
}

/// The wires that show which pages are accessed.
pub trait TracePageSet: Sized {
    /// The wires are numbered from zero, in the order of their
    /// declaration.
    spec fn wf(&self) -> bool;

    /// Number of pages that have wires.
    spec fn size(&self) -> nat;

    /// The level of every wire.
    spec fn levels(&self) -> Seq<bool>;

    /// Whether the wires of `size` pages can be numbered.
    spec fn fits(size: usize) -> bool;

    /// Number of wires that `size` pages have.
    spec fn wire_count(size: nat) -> nat;

    /// The names of the wires of `size` pages.
    spec fn names(size: nat) -> Seq<Seq<char>>;

    /// Whether every page that `items` would raise a wire of has one.
    spec fn shows(size: nat, items: Seq<PageAccess>) -> bool;

    /// The levels at which the wires show `items`.
    spec fn target(size: nat, items: Seq<PageAccess>) -> Seq<bool>;

    /// The changes by which wires at `levels` come to show `items`.
    spec fn changes(levels: Seq<bool>, items: Seq<PageAccess>) -> Seq<WireChange>;

    /// Well-formed wires are as many as their pages call for, and they
    /// can be numbered.
    proof fn lemma_wire_count(&self)
        requires
            self.wf(),
        ensures
            self.levels().len() == Self::wire_count(self.size()),
            Self::wire_count(self.size()) <= usize::MAX,
    ;

    /// The wires of `size` pages, all low.
    fn new(size: usize) -> (result: Self)
        requires
            Self::fits(size),
        ensures
            result.wf(),
            result.size() == size,
            result.levels() == Seq::new(Self::wire_count(size as nat), |w: int| false),
            Self::wire_count(size as nat) <= usize::MAX,
    ;

    /// The names under which to declare the wires, in order.
    fn add_wires(&self) -> (names: Vec<String>)
        requires
            self.wf(),
        ensures
            names_view(names@) == Self::names(self.size()),
            names@.len() == Self::wire_count(self.size()),
    ;

    /// The changes that set every wire low, in order.
    fn init_wires(&self) -> (changes: Vec<WireChange>)
        requires
            self.wf(),
        ensures
            changes@ == initial_changes(0, Self::wire_count(self.size())),
    ;

    /// Whether every page that `items` would raise a wire of has one.
    fn can_show(&self, items: &[PageAccess]) -> (result: bool)
        requires
            self.wf(),
        ensures
            result == Self::shows(self.size(), items@),
    ;

    /// Makes the wires show `items`, and answers with the changes that
    /// this takes.
    fn update_state(&mut self, items: &[PageAccess]) -> (changes: Vec<WireChange>)
        requires
            old(self).wf(),
            Self::shows(old(self).size(), items@),
        ensures
            final(self).wf(),
            final(self).size() == old(self).size(),
            final(self).levels() == Self::target(old(self).size(), items@),
            final(self).levels().len() == old(self).levels().len(),
            changes@ == Self::changes(old(self).levels(), items@),
    ;
}

/// One wire per page, high while the page is read.
pub struct RSet {
    r: VCDStatefulSet,
    read: Vec<usize>,
}

impl TracePageSet for RSet {
    closed spec fn wf(&self) -> bool {
        &&& self.r.wf()
        &&& self.r.first_wire() == 0
        &&& self.r.suffix() is None
    }

    closed spec fn size(&self) -> nat {
        self.r.levels().len()
    }

    closed spec fn levels(&self) -> Seq<bool> {
        self.r.levels()
    }

    open spec fn fits(size: usize) -> bool {
        true
    }

    open spec fn wire_count(size: nat) -> nat {
        size
    }

    open spec fn names(size: nat) -> Seq<Seq<char>> {
        wire_names(size, None)
    }

    open spec fn shows(size: nat, items: Seq<PageAccess>) -> bool {
        pages_below(pages_used(items, Permission::Read), size)
    }

    open spec fn target(size: nat, items: Seq<PageAccess>) -> Seq<bool> {
        target_levels(size, pages_used(items, Permission::Read))
    }

    open spec fn changes(levels: Seq<bool>, items: Seq<PageAccess>) -> Seq<WireChange> {
        level_changes(0, levels, pages_used(items, Permission::Read))
    }

    proof fn lemma_wire_count(&self) {
    }

    fn new(size: usize) -> (result: Self) {
        Self { r: VCDStatefulSet::new(0, size, None), read: Vec::with_capacity(10) }
    }

    fn add_wires(&self) -> (names: Vec<String>) {
        self.r.add_wires()
    }

    fn init_wires(&self) -> (changes: Vec<WireChange>) {
        self.r.init_wires()
    }

    fn can_show(&self, items: &[PageAccess]) -> (result: bool) {
        accesses_below(items, Permission::Read, self.r.size())
    }

    fn update_state(&mut self, items: &[PageAccess]) -> (changes: Vec<WireChange>) {
        collect_pages(&mut self.read, items, Permission::Read);
        self.r.update_state(self.read.as_slice())
    }
}

/// Three wires per page, high while the page is read, written and
/// executed.
pub struct RWXSet {
    r: VCDStatefulSet,
    w: VCDStatefulSet,
    x: VCDStatefulSet,
    read: Vec<usize>,
    write: Vec<usize>,
    execute: Vec<usize>,
}

impl TracePageSet for RWXSet {
    closed spec fn wf(&self) -> bool {
        let size = self.r.levels().len();
        &&& self.r.wf() && self.w.wf() && self.x.wf()
        &&& self.w.levels().len() == size && self.x.levels().len() == size
        &&& self.r.first_wire() == 0
        &&& self.w.first_wire() == size
        &&& self.x.first_wire() == 2 * size
        &&& self.r.suffix() == Some("r"@)
        &&& self.w.suffix() == Some("w"@)
        &&& self.x.suffix() == Some("x"@)
    }

    closed spec fn size(&self) -> nat {
        self.r.levels().len()
    }

    closed spec fn levels(&self) -> Seq<bool> {
        self.r.levels() + self.w.levels() + self.x.levels()
    }

    open spec fn fits(size: usize) -> bool {
        3 * size <= usize::MAX
    }

    open spec fn wire_count(size: nat) -> nat {
        3 * size
    }

    open spec fn names(size: nat) -> Seq<Seq<char>> {
        wire_names(size, Some("r"@)) + wire_names(size, Some("w"@)) + wire_names(
            size,
            Some("x"@),
        )
    }

    open spec fn shows(size: nat, items: Seq<PageAccess>) -> bool {
        &&& pages_below(pages_used(items, Permission::Read), size)
        &&& pages_below(pages_used(items, Permission::Write), size)
        &&& pages_below(pages_used(items, Permission::Execute), size)
    }

    open spec fn target(size: nat, items: Seq<PageAccess>) -> Seq<bool> {
        target_levels(size, pages_used(items, Permission::Read)) + target_levels(
            size,
            pages_used(items, Permission::Write),
        ) + target_levels(size, pages_used(items, Permission::Execute))
    }

    open spec fn changes(levels: Seq<bool>, items: Seq<PageAccess>) -> Seq<WireChange> {
        let size = levels.len() as int / 3;
        level_changes(
            0,
            levels.subrange(0, size),
            pages_used(items, Permission::Read),
        ) + level_changes(
            size as usize,
            levels.subrange(size, 2 * size),
            pages_used(items, Permission::Write),
        ) + level_changes(
            (2 * size) as usize,
            levels.subrange(2 * size, 3 * size),
            pages_used(items, Permission::Execute),
        )
    }

    proof fn lemma_wire_count(&self) {
    }

    fn new(size: usize) -> (result: Self) {
        let result = Self {
            r: VCDStatefulSet::new(0, size, Some(String::from_str("r"))),
            w: VCDStatefulSet::new(size, size, Some(String::from_str("w"))),
            x: VCDStatefulSet::new(2 * size, size, Some(String::from_str("x"))),
            read: Vec::with_capacity(10),
            write: Vec::with_capacity(10),
            execute: Vec::with_capacity(10),
        };
        assert(result.levels() =~= Seq::new(Self::wire_count(size as nat), |w: int| false));
        result
    }

    fn add_wires(&self) -> (names: Vec<String>) {
        let mut names = self.r.add_wires();
        let mut w_names = self.w.add_wires();
        let mut x_names = self.x.add_wires();
        let ghost r_view = names_view(names@);
        let ghost w_view = names_view(w_names@);
        let ghost x_view = names_view(x_names@);
        names.append(&mut w_names);
        names.append(&mut x_names);
        assert(names_view(names@) =~= r_view + w_view + x_view);
        names
    }

    fn init_wires(&self) -> (changes: Vec<WireChange>) {
        let mut changes = self.r.init_wires();
        let mut w_changes = self.w.init_wires();
        let mut x_changes = self.x.init_wires();
        changes.append(&mut w_changes);
        changes.append(&mut x_changes);
        assert(changes@ =~= initial_changes(0, Self::wire_count(self.size())));
        changes
    }

    fn can_show(&self, items: &[PageAccess]) -> (result: bool) {
        accesses_below(items, Permission::Read, self.r.size()) && accesses_below(
            items,
            Permission::Write,
            self.r.size(),
        ) && accesses_below(items, Permission::Execute, self.r.size())
    }

    fn update_state(&mut self, items: &[PageAccess]) -> (changes: Vec<WireChange>) {
        collect_pages(&mut self.read, items, Permission::Read);
        collect_pages(&mut self.write, items, Permission::Write);
        collect_pages(&mut self.execute, items, Permission::Execute);
        let ghost levels = self.levels();
        let ghost size = self.size() as int;
        proof {
            assert(levels.subrange(0, size) =~= self.r.levels());
            assert(levels.subrange(size, 2 * size) =~= self.w.levels());
            assert(levels.subrange(2 * size, 3 * size) =~= self.x.levels());
            assert(levels.len() as int / 3 == size);
        }
        let mut changes = self.r.update_state(self.read.as_slice());
        let mut w_changes = self.w.update_state(self.write.as_slice());
        let mut x_changes = self.x.update_state(self.execute.as_slice());
        changes.append(&mut w_changes);
        changes.append(&mut x_changes);
        changes
    }
}

/// One record of a trace.
#[derive(Debug, Clone, PartialEq, Eq)]
pub enum TraceRecord {
    /// The unit of time, in milliseconds.
    Timescale(u32),
    /// A module opens; the wires that follow belong to it.
    AddModule(String),
    /// A wire of the given width and name.
    AddWire { width: u32, name: String },
    /// The module closes.
    Upscope,
    /// No more wires follow.
    Enddefinitions,
    /// A wire of one bit changes its level.
    ChangeScalar(WireChange),
    /// A wire of several bits changes to the given bits, the most
    /// significant first.
    ChangeVector { wire: usize, bits: Vec<bool> },
    /// Time moves on to the given stamp.
    Timestamp(u64),
}

/// What a [`TraceRecord`] holds.
#[verifier::ext_equal]
pub enum TraceRecordView {
    Timescale(u32),
    AddModule(Seq<char>),
    AddWire { width: u32, name: Seq<char> },
    Upscope,
    Enddefinitions,
    ChangeScalar(WireChange),
    ChangeVector { wire: usize, bits: Seq<bool> },
    Timestamp(u64),
}

impl View for TraceRecord {
    type V = TraceRecordView;

    open spec fn view(&self) -> TraceRecordView {
        match self {
            TraceRecord::Timescale(value) => TraceRecordView::Timescale(*value),
            TraceRecord::AddModule(name) => TraceRecordView::AddModule(name@),
            TraceRecord::AddWire { width, name } => TraceRecordView::AddWire {
                width: *width,
                name: name@,
            },
            TraceRecord::Upscope => TraceRecordView::Upscope,
            TraceRecord::Enddefinitions => TraceRecordView::Enddefinitions,
            TraceRecord::ChangeScalar(change) => TraceRecordView::ChangeScalar(*change),
            TraceRecord::ChangeVector { wire, bits } => TraceRecordView::ChangeVector {
                wire: *wire,
                bits: bits@,
            },
            TraceRecord::Timestamp(stamp) => TraceRecordView::Timestamp(*stamp),
        }
    }
}

/// What the records of `records` hold.
pub open spec fn records_view(records: Seq<TraceRecord>) -> Seq<TraceRecordView> {
    Seq::new(records.len(), |i: int| records[i]@)
}

/// The records that declare wires of one bit under `names`.
pub open spec fn wire_records(names: Seq<Seq<char>>) -> Seq<TraceRecordView> {
    Seq::new(names.len(), |i: int| TraceRecordView::AddWire { width: 1, name: names[i] })
}

/// The records of the changes of `changes`.
pub open spec fn change_records(changes: Seq<WireChange>) -> Seq<TraceRecordView> {
    Seq::new(changes.len(), |i: int| TraceRecordView::ChangeScalar(changes[i]))
}

/// The head of a trace with wires of one bit under `names`: the unit of
/// time, the module `trace` with these wires and the wire `erip`, and every
/// wire of one bit set low.
pub open spec fn header_records(names: Seq<Seq<char>>) -> Seq<TraceRecordView> {
    seq![TraceRecordView::Timescale(1), TraceRecordView::AddModule("trace"@)] + wire_records(names)
        + seq![
        TraceRecordView::AddWire { width: ERIP_WIDTH, name: "erip"@ },
        TraceRecordView::Upscope,
        TraceRecordView::Enddefinitions,
    ] + change_records(initial_changes(0, names.len()))
}

/// Appends a record.
fn push_record(records: &mut Vec<TraceRecord>, record: TraceRecord)
    ensures
        records_view(final(records)@) == records_view(old(records)@).push(record@),
{
    records.push(record);
    assert(records_view(records@) =~= records_view(old(records)@).push(record@));
}

/// Appends the records of the changes of `changes`.
fn push_changes(records: &mut Vec<TraceRecord>, changes: &Vec<WireChange>)
    ensures
        records_view(final(records)@) == records_view(old(records)@) + change_records(changes@),
{
    let mut i: usize = 0;
    assert(records_view(records@) =~= records_view(old(records)@) + change_records(
        changes@,
    ).take(0));
    while i < changes.len()
        invariant
            i <= changes@.len(),
            records_view(records@) == records_view(old(records)@) + change_records(changes@).take(
                i as int,
            ),
        decreases changes@.len() - i,
    {
        push_record(records, TraceRecord::ChangeScalar(changes[i]));
        i += 1;
        assert(records_view(records@) =~= records_view(old(records)@) + change_records(
            changes@,
        ).take(i as int));
    }
    assert(change_records(changes@).take(i as int) =~= change_records(changes@));
}

/// Something to write at one step of a trace.
#[derive(Debug, Clone, PartialEq, Eq)]
pub enum EntryWrite {
    /// The instruction pointer.
    Erip(u64),
    /// The pages accessed at this step.
    PageAccesses(Vec<PageAccess>),
}

/// What an [`EntryWrite`] holds.
#[verifier::ext_equal]
pub enum EntryWriteView {
    Erip(u64),
    PageAccesses(Seq<PageAccess>),
}

impl View for EntryWrite {
    type V = EntryWriteView;

    open spec fn view(&self) -> EntryWriteView {
        match self {
            EntryWrite::Erip(erip) => EntryWriteView::Erip(*erip),
            EntryWrite::PageAccesses(pages) => EntryWriteView::PageAccesses(pages@),
        }
    }
}

/// What is to be written at one step of a trace, in order.
pub struct VCDEntry {
    writes: Vec<EntryWrite>,
}

impl View for VCDEntry {
    type V = Seq<EntryWriteView>;

    closed spec fn view(&self) -> Seq<EntryWriteView> {
        Seq::new(self.writes@.len(), |i: int| self.writes@[i]@)
    }
}

/// Whether a page set of `size` pages can show every write of `writes`.
pub open spec fn shows_all<S: TracePageSet>(size: nat, writes: Seq<EntryWriteView>) -> bool {
    forall|i: int|
        0 <= i < writes.len() ==> (#[trigger] writes[i] matches EntryWriteView::PageAccesses(pages)
            ==> S::shows(size, pages))
}

/// The levels of the wires after the writes of `writes`.
pub open spec fn levels_after<S: TracePageSet>(
    levels: Seq<bool>,
    size: nat,
    writes: Seq<EntryWriteView>,
) -> Seq<bool>
    decreases writes.len(),
{
    if writes.len() == 0 {
        levels
    } else {
        let before = levels_after::<S>(levels, size, writes.drop_last());
        match writes.last() {
            EntryWriteView::Erip(_) => before,
            EntryWriteView::PageAccesses(pages) => S::target(size, pages),
        }
    }
}

/// The records of the writes of `writes`: the instruction pointer on the
/// wire `rip`, and the changes of the wires of the pages.
pub open spec fn write_records<S: TracePageSet>(
    levels: Seq<bool>,
    size: nat,
    rip: usize,
    writes: Seq<EntryWriteView>,
) -> Seq<TraceRecordView>
    decreases writes.len(),
{
    if writes.len() == 0 {
        Seq::empty()
    } else {
        let before = write_records::<S>(levels, size, rip, writes.drop_last());
        match writes.last() {
            EntryWriteView::Erip(value) => before.push(
                TraceRecordView::ChangeVector { wire: rip, bits: spec_bits(value) },
            ),
            EntryWriteView::PageAccesses(pages) => before + change_records(
                S::changes(levels_after::<S>(levels, size, writes.drop_last()), pages),
            ),
        }
    }
}

impl VCDEntry {
    /// An entry with nothing to write.
    pub fn new() -> (result: Self)
        ensures
            result@ == Seq::<EntryWriteView>::empty(),
    {
        let result = Self { writes: Vec::new() };
        assert(result@ =~= Seq::<EntryWriteView>::empty());
        result
    }

    /// Write the erip.
    pub fn write_erip(&mut self, erip: u64)
        ensures
            final(self)@ == old(self)@.push(EntryWriteView::Erip(erip)),
    {
        self.writes.push(EntryWrite::Erip(erip));
        assert(self@ =~= old(self)@.push(EntryWriteView::Erip(erip)));
    }

    /// Write the pages accessed at the current step.
    pub fn write_page_accesses(&mut self, pages: &[PageAccess])
        ensures
            final(self)@ == old(self)@.push(EntryWriteView::PageAccesses(pages@)),
    {
        let written = slice_to_vec(pages);
        self.writes.push(EntryWrite::PageAccesses(written));
        assert(self@ =~= old(self)@.push(EntryWriteView::PageAccesses(pages@)));
    }

    /// What is to be written, in order.
    pub fn writes(&self) -> (result: &Vec<EntryWrite>)
        ensures
            result@.len() == self@.len(),
            forall|i: int| 0 <= i < result@.len() ==> (#[trigger] result@[i])@ == self@[i],
    {
        &self.writes
    }
}

/// `VCDDumper` decides what goes into a trace.
///
/// Every step of the execution gets an entry of what to write; the
/// timestamp moves on when the entry has been written.
pub struct VCDDumper<S> {
    pages: S,
    rip: Option<usize>,
    ts: u64,
}

impl<S: TracePageSet> VCDDumper<S> {
    /// The page wires are well formed, and the wire of the instruction
    /// pointer follows them.
    pub closed spec fn wf(&self) -> bool {
        &&& self.pages.wf()
        &&& self.pages.levels().len() == S::wire_count(self.pages.size())
        &&& self.rip == Some(S::wire_count(self.pages.size()) as usize)
        &&& S::wire_count(self.pages.size()) <= usize::MAX
    }

    /// Number of pages that have wires.
    pub closed spec fn size(&self) -> nat {
        self.pages.size()
    }

    /// The level of every page wire.
    pub closed spec fn levels(&self) -> Seq<bool> {
        self.pages.levels()
    }

    /// The last timestamp.
    pub closed spec fn spec_timestamp(&self) -> u64 {
        self.ts
    }

    /// The last timestamp.
    #[verifier::when_used_as_spec(spec_timestamp)]
    pub fn timestamp(&self) -> (result: u64)
        ensures
            result == self.spec_timestamp(),
    {
        self.ts
    }

    /// Whether the wires can show every write of an entry.
    pub fn can_show(&self, entry: &VCDEntry) -> (result: bool)
        requires
            self.wf(),
        ensures
            result == shows_all::<S>(self.size(), entry@),
    {
        let mut i: usize = 0;
        while i < entry.writes.len()
            invariant
                i <= entry.writes@.len(),
                self.wf(),
                entry@.len() == entry.writes@.len(),
                forall|j: int|
                    0 <= j < i ==> (#[trigger] entry@[j] matches EntryWriteView::PageAccesses(pages)
                        ==> S::shows(self.size(), pages)),
            decreases entry.writes@.len() - i,
        {
            assert(entry@[i as int] == entry.writes@[i as int]@);
            if let EntryWrite::PageAccesses(pages) = &entry.writes[i] {
                if !self.pages.can_show(pages.as_slice()) {
                    return false;
                }
            }
            i += 1;
        }
        true
    }

    /// The number of the wire of the instruction pointer.
    pub open spec fn rip_wire(&self) -> usize {
        S::wire_count(self.size()) as usize
    }

    /// A dumper for `num_pages` pages at timestamp zero, and the head of
    /// its trace.
    pub fn new(num_pages: usize) -> (result: (Self, Vec<TraceRecord>))
        requires
            S::fits(num_pages),
        ensures
            result.0.wf(),
            result.0.size() == num_pages,
            result.0.timestamp() == 0,
            result.0.levels() == Seq::new(S::wire_count(num_pages as nat), |w: int| false),
            records_view(result.1@) == header_records(S::names(num_pages as nat)),
    {
        let pages = S::new(num_pages);
        let mut records: Vec<TraceRecord> = Vec::new();
        assert(records_view(records@) =~= Seq::<TraceRecordView>::empty());
        push_record(&mut records, TraceRecord::Timescale(1));
        push_record(&mut records, TraceRecord::AddModule(String::from_str("trace")));
        let ghost head = seq![
            TraceRecordView::Timescale(1),
            TraceRecordView::AddModule("trace"@),
        ];
        assert(records_view(records@) =~= head);

        let names = pages.add_wires();
        let ghost all_names = names_view(names@);
        let mut i: usize = 0;
        assert(records_view(records@) =~= head + wire_records(all_names).take(0));
        while i < names.len()
            invariant
                i <= names@.len(),
                all_names == names_view(names@),
                records_view(records@) == head + wire_records(all_names).take(i as int),
            decreases names@.len() - i,
        {
            let name = names[i].clone();
            assert(name@ == all_names[i as int]);
            push_record(&mut records, TraceRecord::AddWire { width: 1, name });
            i += 1;
            assert(records_view(records@) =~= head + wire_records(all_names).take(i as int));
        }
        assert(wire_records(all_names).take(i as int) =~= wire_records(all_names));
        let rip = names.len();
        push_record(
            &mut records,
            TraceRecord::AddWire { width: ERIP_WIDTH, name: String::from_str("erip") },
        );
        push_record(&mut records, TraceRecord::Upscope);
        push_record(&mut records, TraceRecord::Enddefinitions);
        let changes = pages.init_wires();
        push_changes(&mut records, &changes);
        assert(records_view(records@) =~= header_records(S::names(num_pages as nat)));
        (Self { pages, rip: Some(rip), ts: 0 }, records)
    }

    /// Write the next step of execution: what the entry holds, in order,
    /// and then the next timestamp.
    pub fn next_step(&mut self, entry: VCDEntry) -> (records: Vec<TraceRecord>)
        requires
            old(self).wf(),
            old(self).timestamp() < u64::MAX,
            shows_all::<S>(old(self).size(), entry@),
        ensures
            final(self).wf(),
            final(self).size() == old(self).size(),
            final(self).timestamp() == old(self).timestamp() + 1,
            final(self).levels() == levels_after::<S>(
                old(self).levels(),
                old(self).size(),
                entry@,
            ),
            records_view(records@) == write_records::<S>(
                old(self).levels(),
                old(self).size(),
                old(self).rip_wire(),
                entry@,
            ).push(TraceRecordView::Timestamp((old(self).timestamp() + 1) as u64)),
    {
        let mut records: Vec<TraceRecord> = Vec::new();
        let ghost levels = self.pages.levels();
        let ghost size = self.pages.size();
        let ghost rip = self.rip_wire();
        let mut i: usize = 0;
        assert(entry@.take(0) =~= Seq::<EntryWriteView>::empty());
        assert(records_view(records@) =~= Seq::<TraceRecordView>::empty());
        while i < entry.writes.len()
            invariant
                i <= entry.writes@.len(),
                self.wf(),
                self.ts == old(self).ts,
                self.pages.size() == size,
                size == old(self).size(),
                rip == old(self).rip_wire(),
                levels == old(self).levels(),
                shows_all::<S>(size, entry@),
                entry@.len() == entry.writes@.len(),
                self.pages.levels() == levels_after::<S>(levels, size, entry@.take(i as int)),
                records_view(records@) == write_records::<S>(
                    levels,
                    size,
                    rip,
                    entry@.take(i as int),
                ),
            decreases entry.writes@.len() - i,
        {
            proof {
                let next = entry@.take(i + 1);
                assert(next.drop_last() =~= entry@.take(i as int));
                assert(next.last() == entry.writes@[i as int]@);
                assert(entry@[i as int] == entry.writes@[i as int]@);
            }
            match &entry.writes[i] {
                EntryWrite::Erip(value) => {
                    let record = self.write_erip(*value);
                    push_record(&mut records, record);
                },
                EntryWrite::PageAccesses(pages) => {
                    let changes = self.pages.update_state(pages.as_slice());
                    push_changes(&mut records, &changes);
                },
            }
            i += 1;
        }
        assert(entry@.take(i as int) =~= entry@);
        let stamp = self.next_timestamp();
        push_record(&mut records, stamp);
        records
    }

    /// The record of the instruction pointer.
    fn write_erip(&self, rip: u64) -> (record: TraceRecord)
        requires
            self.wf(),
        ensures
            record@ == (TraceRecordView::ChangeVector {
                wire: self.rip_wire(),
                bits: spec_bits(rip),
            }),
    {
        TraceRecord::ChangeVector { wire: self.rip.unwrap(), bits: bits(rip) }
    }

    /// Moves on to the next timestamp, and answers with its record.
    fn next_timestamp(&mut self) -> (record: TraceRecord)
        requires
            old(self).wf(),
            old(self).timestamp() < u64::MAX,
        ensures
            final(self).wf(),
            final(self).size() == old(self).size(),
            final(self).levels() == old(self).levels(),
            final(self).timestamp() == old(self).timestamp() + 1,
            record@ == TraceRecordView::Timestamp(final(self).timestamp()),
    {
        self.ts += 1;
        TraceRecord::Timestamp(self.ts)
    }
}

/// Number of pages that the trace of an enclave of `enclave_size` bytes has
/// wires for: its own and some to spare.
pub open spec fn spec_dumper_pages(enclave_size: usize) -> usize {
    (enclave_size / PAGE_SIZE + SPARE_PAGES) as usize
}

/// Number of pages that the trace of an enclave has wires for.
pub fn dumper_pages(enclave_size: usize) -> (result: usize)
    ensures
        result == spec_dumper_pages(enclave_size),
        result == enclave_size / PAGE_SIZE + SPARE_PAGES,
{
    enclave_size / PAGE_SIZE + SPARE_PAGES
}

/// A dumper for the pages of an enclave of `enclave_size` bytes, and the
/// head of its trace.
pub fn create_dumper<S: TracePageSet>(enclave_size: usize) -> (result: (
    VCDDumper<S>,
    Vec<TraceRecord>,
))
    requires
        S::fits(spec_dumper_pages(enclave_size)),
    ensures
        result.0.wf(),
        result.0.size() == spec_dumper_pages(enclave_size),
        result.0.timestamp() == 0,
        records_view(result.1@) == header_records(
            S::names(spec_dumper_pages(enclave_size) as nat),
        ),
{
    VCDDumper::new(dumper_pages(enclave_size))
}

} // verus!
