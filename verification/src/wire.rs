//! Names and levels of the wires of a page-access trace: one wire per page,
//! high while the page counts as accessed.

use vstd::prelude::*;
use vstd::string::StringExecFns;

verus! {

/// A change of the level of a wire.
#[derive(Debug, Clone, Copy, PartialEq, Eq, Structural)]
pub struct WireChange {
    /// The wire, by its number in the order of declaration.
    pub wire: usize,
    /// The level that the wire changes to.
    pub value: bool,
}

/// The character of a decimal digit.
pub open spec fn digit_char(digit: nat) -> char {
    if digit == 0 {
        '0'
    } else if digit == 1 {
        '1'
    } else if digit == 2 {
        '2'
    } else if digit == 3 {
        '3'
    } else if digit == 4 {
        '4'
    } else if digit == 5 {
        '5'
    } else if digit == 6 {
        '6'
    } else if digit == 7 {
        '7'
    } else if digit == 8 {
        '8'
    } else {
        '9'
    }
}

/// A number in decimal digits, without leading zeros.
pub open spec fn decimal(n: nat) -> Seq<char>
    decreases n,
{
    if n < 10 {
        seq![digit_char(n)]
    } else {
        decimal(n / 10).push(digit_char(n % 10))
    }
}

/// The name of the wire of page `page`: an underscore and the number of
/// the page, followed by another underscore and the suffix if there is one.
pub open spec fn spec_wire_name(page: usize, suffix: Option<Seq<char>>) -> Seq<char> {
    match suffix {
        Some(suffix) => seq!['_'] + decimal(page as nat) + seq!['_'] + suffix,
        None => seq!['_'] + decimal(page as nat),
    }
}

/// The digit as a string.
fn digit_str(digit: usize) -> (result: &'static str)
    requires
        digit < 10,
    ensures
        result@ == seq![digit_char(digit as nat)],
{
    proof {
        reveal_strlit("0");
        reveal_strlit("1");
        reveal_strlit("2");
        reveal_strlit("3");
        reveal_strlit("4");
        reveal_strlit("5");
        reveal_strlit("6");
        reveal_strlit("7");
        reveal_strlit("8");
        reveal_strlit("9");
    }
    let result = if digit == 0 {
        "0"
    } else if digit == 1 {
        "1"
    } else if digit == 2 {
        "2"
    } else if digit == 3 {
        "3"
    } else if digit == 4 {
        "4"
    } else if digit == 5 {
        "5"
    } else if digit == 6 {
        "6"
    } else if digit == 7 {
        "7"
    } else if digit == 8 {
        "8"
    } else {
        "9"
    };
    assert(result@ =~= seq![digit_char(digit as nat)]);
    result
}

/// Appends a number in decimal digits to a string.
fn append_decimal(text: &mut String, n: usize)
    ensures
        final(text)@ == old(text)@ + decimal(n as nat),
    decreases n,
{
    if n >= 10 {
        append_decimal(text, n / 10);
    }
    text.append(digit_str(n % 10));
    assert(text@ =~= old(text)@ + decimal(n as nat));
}

/// The name of the wire of a page.
pub fn wire_name(page: usize, suffix: Option<&str>) -> (result: String)
    ensures
        result@ == spec_wire_name(
            page,
            match suffix {
                Some(suffix) => Some(suffix@),
                None => None,
            },
        ),
{
    proof {
        reveal_strlit("_");
    }
    let mut result = String::from_str("_");
    append_decimal(&mut result, page);
    if let Some(suffix) = suffix {
        result.append("_");
        result.append(suffix);
    }
    assert(result@ =~= spec_wire_name(
        page,
        match suffix {
            Some(suffix) => Some(suffix@),
            None => None,
        },
    ));
    result
}

/// The bits of a 64-bit value, the most significant first.
pub open spec fn spec_bits(value: u64) -> Seq<bool> {
    Seq::new(64, |i: int| (value >> ((63 - i) as u64)) & 1 != 0)
}

/// The bits of a 64-bit value, the most significant first.
pub fn bits(value: u64) -> (result: Vec<bool>)
    ensures
        result@ == spec_bits(value),
{
    let mut result: Vec<bool> = Vec::new();
    let mut i: u64 = 0;
    while i < 64
        invariant
            i <= 64,
            result@.len() == i,
            forall|j: int|
                0 <= j < i ==> #[trigger] result@[j] == ((value >> ((63 - j) as u64)) & 1 != 0),
        decreases 64 - i,
    {
        result.push((value >> (63 - i)) & 1 != 0);
        i += 1;
    }
    assert(result@ =~= spec_bits(value));
    result
}

/// The levels of `size` wires when the pages of `items` count as accessed:
/// high for these and low for all others.
pub open spec fn target_levels(size: nat, items: Seq<usize>) -> Seq<bool> {
    Seq::new(size, |w: int| exists|i: int| 0 <= i < items.len() && #[trigger] items[i] == w)
}

/// The levels after the wires of `items` were raised.
pub open spec fn raised_levels(levels: Seq<bool>, items: Seq<usize>) -> Seq<bool> {
    Seq::new(
        levels.len(),
        |w: int| levels[w] || exists|i: int| 0 <= i < items.len() && #[trigger] items[i] == w,
    )
}

/// The changes that raise the wires of `items`: one for every wire that is
/// low, in the order in which `items` first names it.
pub open spec fn rising(first_wire: usize, levels: Seq<bool>, items: Seq<usize>) -> Seq<WireChange>
    decreases items.len(),
{
    if items.len() == 0 {
        Seq::empty()
    } else {
        let earlier = items.drop_last();
        let before = rising(first_wire, levels, earlier);
        if !raised_levels(levels, earlier)[items.last() as int] {
            before.push(WireChange { wire: (first_wire + items.last()) as usize, value: true })
        } else {
            before
        }
    }
}

/// The changes that lower the wires below `limit` that are high without
/// being named by `items`, by ascending wire.
pub open spec fn falling(
    first_wire: usize,
    levels: Seq<bool>,
    items: Seq<usize>,
    limit: nat,
) -> Seq<WireChange>
    decreases limit,
{
    if limit == 0 {
        Seq::empty()
    } else {
        let before = falling(first_wire, levels, items, (limit - 1) as nat);
        if levels[limit - 1] && !target_levels(levels.len(), items)[limit - 1] {
            before.push(WireChange { wire: (first_wire + limit - 1) as usize, value: false })
        } else {
            before
        }
    }
}

/// The changes by which wires at `levels` come to show `items`: first the
/// wires that rise, then the wires that fall.
pub open spec fn level_changes(first_wire: usize, levels: Seq<bool>, items: Seq<usize>) -> Seq<
    WireChange,
> {
    rising(first_wire, levels, items) + falling(first_wire, levels, items, levels.len())
}

/// The changes that set `count` wires low, starting with wire `first_wire`.
pub open spec fn initial_changes(first_wire: usize, count: nat) -> Seq<WireChange> {
    Seq::new(count, |w: int| WireChange { wire: (first_wire + w) as usize, value: false })
}

/// The names of the wires of `count` pages.
pub open spec fn wire_names(count: nat, suffix: Option<Seq<char>>) -> Seq<Seq<char>> {
    Seq::new(count, |page: int| spec_wire_name(page as usize, suffix))
}

/// The names that `names` holds.
pub open spec fn names_view(names: Seq<String>) -> Seq<Seq<char>> {
    Seq::new(names.len(), |i: int| names[i]@)
}

/// Whether `items` holds `wire`.
fn holds_wire(items: &[usize], wire: usize) -> (result: bool)
    ensures
        result == exists|i: int| 0 <= i < items@.len() && #[trigger] items@[i] == wire,
{
    let mut i: usize = 0;
    while i < items.len()
        invariant
            i <= items@.len(),
            forall|j: int| 0 <= j < i ==> items@[j] != wire,
        decreases items@.len() - i,
    {
        if items[i] == wire {
            return true;
        }
        i += 1;
    }
    false
}

/// The wires of a set of pages and the levels that they were last given.
pub struct VCDStatefulSet {
    first_wire: usize,
    state: Vec<bool>,
    wire_suffix: Option<String>,
}

impl VCDStatefulSet {
    /// The wires can be numbered: the number of the last wire fits the
    /// machine word.
    pub open spec fn wf(&self) -> bool {
        self.first_wire() + self.levels().len() <= usize::MAX
    }

    /// The number of the first wire.
    pub closed spec fn first_wire(&self) -> usize {
        self.first_wire
    }

    /// The level of every wire.
    pub closed spec fn levels(&self) -> Seq<bool> {
        self.state@
    }

    /// What follows the number of the page in the names of the wires.
    pub closed spec fn suffix(&self) -> Option<Seq<char>> {
        match self.wire_suffix {
            Some(suffix) => Some(suffix@),
            None => None,
        }
    }

    /// The wires of `size` pages, all low; the first of them is wire
    /// `first_wire`.
    pub fn new(first_wire: usize, size: usize, wire_suffix: Option<String>) -> (result: Self)
        requires
            first_wire + size <= usize::MAX,
        ensures
            result.wf(),
            result.first_wire() == first_wire,
            result.levels() == Seq::new(size as nat, |w: int| false),
            result.suffix() == (match wire_suffix {
                Some(suffix) => Some(suffix@),
                None => None,
            }),
    {
        let mut state: Vec<bool> = Vec::new();
        let mut i: usize = 0;
        while i < size
            invariant
                i <= size,
                state@ == Seq::new(i as nat, |w: int| false),
            decreases size - i,
        {
            state.push(false);
            i += 1;
            assert(state@ =~= Seq::new(i as nat, |w: int| false));
        }
        Self { first_wire, state, wire_suffix }
    }

    /// Number of wires.
    pub fn size(&self) -> (result: usize)
        ensures
            result == self.levels().len(),
    {
        self.state.len()
    }

    /// The names under which to declare the wires, in order.
    pub fn add_wires(&self) -> (names: Vec<String>)
        ensures
            names_view(names@) == wire_names(self.levels().len(), self.suffix()),
            names@.len() == self.levels().len(),
    {
        let mut names: Vec<String> = Vec::new();
        let mut i: usize = 0;
        while i < self.state.len()
            invariant
                i <= self.state@.len(),
                names@.len() == i,
                forall|j: int|
                    0 <= j < i ==> (#[trigger] names@[j])@ == spec_wire_name(
                        j as usize,
                        self.suffix(),
                    ),
            decreases self.state@.len() - i,
        {
            let name = match &self.wire_suffix {
                Some(suffix) => wire_name(i, Some(suffix.as_str())),
                None => wire_name(i, None),
            };
            names.push(name);
            i += 1;
        }
        assert(names_view(names@) =~= wire_names(self.levels().len(), self.suffix()));
        names
    }

    /// The changes that set every wire low, in order.
    pub fn init_wires(&self) -> (changes: Vec<WireChange>)
        requires
            self.wf(),
        ensures
            changes@ == initial_changes(self.first_wire(), self.levels().len()),
    {
        let mut changes: Vec<WireChange> = Vec::new();
        let mut i: usize = 0;
        while i < self.state.len()
            invariant
                i <= self.state@.len(),
                self.wf(),
                changes@ == initial_changes(self.first_wire, i as nat),
            decreases self.state@.len() - i,
        {
            changes.push(WireChange { wire: self.first_wire + i, value: false });
            i += 1;
            assert(changes@ =~= initial_changes(self.first_wire, i as nat));
        }
        changes
    }

    /// Makes the wires show `items`: the wires of these pages become high
    /// and all others low.  Answers with the changes that this takes, and
    /// with none for a wire that is at its level already.
    pub fn update_state(&mut self, items: &[usize]) -> (changes: Vec<WireChange>)
        requires
            old(self).wf(),
            forall|i: int|
                0 <= i < items@.len() ==> #[trigger] items@[i] < old(self).levels().len(),
        ensures
            final(self).wf(),
            final(self).first_wire() == old(self).first_wire(),
            final(self).suffix() == old(self).suffix(),
            final(self).levels() == target_levels(old(self).levels().len(), items@),
            changes@ == level_changes(old(self).first_wire(), old(self).levels(), items@),
    {
        let mut changes: Vec<WireChange> = Vec::new();
        let ghost levels = self.state@;
        let mut i: usize = 0;
        assert(items@.take(0) =~= Seq::<usize>::empty());
        assert(self.state@ =~= raised_levels(levels, items@.take(0)));
        while i < items.len()
            invariant
                i <= items@.len(),
                self.first_wire == old(self).first_wire,
                self.wire_suffix == old(self).wire_suffix,
                levels == old(self).state@,
                self.first_wire + levels.len() <= usize::MAX,
                forall|i: int| 0 <= i < items@.len() ==> #[trigger] items@[i] < levels.len(),
                self.state@ == raised_levels(levels, items@.take(i as int)),
                changes@ == rising(self.first_wire, levels, items@.take(i as int)),
            decreases items@.len() - i,
        {
            let item = items[i];
            proof {
                let next = items@.take(i + 1);
                assert(next.drop_last() =~= items@.take(i as int));
                assert(next.last() == item);
            }
            if !self.state[item] {
                self.state.set(item, true);
                changes.push(WireChange { wire: self.first_wire + item, value: true });
            }
            proof {
                let earlier = items@.take(i as int);
                let next = items@.take(i + 1);
                assert forall|w: int| 0 <= w < levels.len() implies self.state@[w]
                    == raised_levels(levels, next)[w] by {
                    if w == item {
                        assert(next[i as int] == w);
                    } else if raised_levels(levels, earlier)[w] && !levels[w] {
                        let k = choose|k: int| 0 <= k < earlier.len() && #[trigger] earlier[k] == w;
                        assert(next[k] == w);
                    } else if raised_levels(levels, next)[w] && !levels[w] {
                        let k = choose|k: int| 0 <= k < next.len() && #[trigger] next[k] == w;
                        assert(earlier[k] == w);
                    }
                }
                assert(self.state@ =~= raised_levels(levels, next));
            }
            i += 1;
        }
        assert(items@.take(i as int) =~= items@);
        let ghost raised = self.state@;
        let ghost risen = changes@;
        let mut w: usize = 0;
        while w < self.state.len()
            invariant
                w <= self.state@.len(),
                self.first_wire == old(self).first_wire,
                self.wire_suffix == old(self).wire_suffix,
                levels == old(self).state@,
                self.first_wire + levels.len() <= usize::MAX,
                self.state@.len() == levels.len(),
                raised == raised_levels(levels, items@),
                forall|j: int|
                    0 <= j < w ==> self.state@[j] == target_levels(levels.len(), items@)[j],
                forall|j: int| w <= j < levels.len() ==> self.state@[j] == raised[j],
                changes@ == risen + falling(self.first_wire, levels, items@, w as nat),
            decreases self.state@.len() - w,
        {
            let ghost shown = target_levels(levels.len(), items@)[w as int];
            assert(raised[w as int] == (levels[w as int] || shown));
            let ghost before = changes@;
            if self.state[w] {
                if !holds_wire(items, w) {
                    self.state.set(w, false);
                    changes.push(WireChange { wire: self.first_wire + w, value: false });
                }
            }
            assert(self.state@[w as int] == shown);
            assert(changes@ == if levels[w as int] && !shown {
                before.push(WireChange { wire: (self.first_wire + w) as usize, value: false })
            } else {
                before
            });
            w += 1;
            assert(changes@ =~= risen + falling(self.first_wire, levels, items@, w as nat));
        }
        assert(self.state@ =~= target_levels(levels.len(), items@));
        changes
    }
}

/// Trace diffs: a wire changes exactly if its level differs from the one
/// that it shall show, it changes to that level, and it changes once.
pub proof fn lemma_level_changes(first_wire: usize, levels: Seq<bool>, items: Seq<usize>)
    requires
        first_wire + levels.len() <= usize::MAX,
        forall|i: int| 0 <= i < items.len() ==> #[trigger] items[i] < levels.len(),
    ensures
        forall|k: int|
            0 <= k < level_changes(first_wire, levels, items).len() ==> {
                let change = #[trigger] level_changes(first_wire, levels, items)[k];
                let w = change.wire - first_wire;
                &&& 0 <= w < levels.len()
                &&& levels[w] != change.value
                &&& target_levels(levels.len(), items)[w] == change.value
            },
        forall|k: int, l: int|
            0 <= k < l < level_changes(first_wire, levels, items).len() ==> (
            #[trigger] level_changes(first_wire, levels, items)[k]).wire != (
            #[trigger] level_changes(first_wire, levels, items)[l]).wire,
        forall|w: int|
            0 <= w < levels.len() && levels[w] != #[trigger] target_levels(levels.len(), items)[w]
                ==> exists|k: int|
                0 <= k < level_changes(first_wire, levels, items).len() && (
                #[trigger] level_changes(first_wire, levels, items)[k]).wire == first_wire + w,
{
    lemma_rising(first_wire, levels, items);
    lemma_falling(first_wire, levels, items, levels.len());
    let up = rising(first_wire, levels, items);
    let down = falling(first_wire, levels, items, levels.len());
    let all = level_changes(first_wire, levels, items);
    let target = target_levels(levels.len(), items);
    assert forall|k: int| 0 <= k < all.len() implies {
        let change = #[trigger] all[k];
        let w = change.wire - first_wire;
        &&& 0 <= w < levels.len()
        &&& levels[w] != change.value
        &&& target[w] == change.value
    } by {
        if k < up.len() {
            assert(all[k] == up[k]);
        } else {
            assert(all[k] == down[k - up.len()]);
        }
    }
    assert forall|k: int, l: int| 0 <= k < l < all.len() implies (#[trigger] all[k]).wire != (
    #[trigger] all[l]).wire by {
        if l < up.len() {
            assert(all[k] == up[k] && all[l] == up[l]);
        } else if k >= up.len() {
            assert(all[k] == down[k - up.len()] && all[l] == down[l - up.len()]);
        } else {
            assert(all[k] == up[k] && all[l] == down[l - up.len()]);
            assert(up[k].value && !down[l - up.len()].value);
            let w = all[k].wire - first_wire;
            assert(target[w] == up[k].value);
        }
    }
    assert forall|w: int| 0 <= w < levels.len() && levels[w] != #[trigger] target[w] implies exists|
        k: int,
    | 0 <= k < all.len() && (#[trigger] all[k]).wire == first_wire + w by {
        if target[w] {
            let k = choose|k: int| 0 <= k < up.len() && (#[trigger] up[k]).wire == first_wire + w;
            assert(all[k] == up[k]);
        } else {
            let k = choose|k: int|
                0 <= k < down.len() && (#[trigger] down[k]).wire == first_wire + w;
            assert(all[k + up.len()] == down[k]);
        }
    }
}

/// The wires that rise are the low wires that `items` names, each once.
proof fn lemma_rising(first_wire: usize, levels: Seq<bool>, items: Seq<usize>)
    requires
        first_wire + levels.len() <= usize::MAX,
        forall|i: int| 0 <= i < items.len() ==> #[trigger] items[i] < levels.len(),
    ensures
        forall|k: int|
            0 <= k < rising(first_wire, levels, items).len() ==> {
                let change = #[trigger] rising(first_wire, levels, items)[k];
                let w = change.wire - first_wire;
                &&& change.value
                &&& 0 <= w < levels.len()
                &&& !levels[w]
                &&& target_levels(levels.len(), items)[w]
            },
        forall|k: int, l: int|
            0 <= k < l < rising(first_wire, levels, items).len() ==> (#[trigger] rising(
                first_wire,
                levels,
                items,
            )[k]).wire != (#[trigger] rising(first_wire, levels, items)[l]).wire,
        forall|w: int|
            0 <= w < levels.len() && !levels[w] && #[trigger] target_levels(levels.len(), items)[w]
                ==> exists|k: int|
                0 <= k < rising(first_wire, levels, items).len() && (#[trigger] rising(
                    first_wire,
                    levels,
                    items,
                )[k]).wire == first_wire + w,
    decreases items.len(),
{
    if items.len() > 0 {
        let earlier = items.drop_last();
        lemma_rising(first_wire, levels, earlier);
        let before = rising(first_wire, levels, earlier);
        let after = rising(first_wire, levels, items);
        let last = items.last() as int;
        let target = target_levels(levels.len(), items);
        let target_before = target_levels(levels.len(), earlier);
        assert forall|w: int| 0 <= w < levels.len() implies (target_before[w] ==> target[w]) && (
        target[w] ==> target_before[w] || w == last) by {
            if target_before[w] {
                let i = choose|i: int| 0 <= i < earlier.len() && #[trigger] earlier[i] == w;
                assert(items[i] == w);
            }
            if target[w] {
                let i = choose|i: int| 0 <= i < items.len() && #[trigger] items[i] == w;
                if i < earlier.len() {
                    assert(earlier[i] == w);
                }
            }
        }
        assert(target[last]) by {
            assert(items[items.len() - 1] == last);
        }
        let fresh = !raised_levels(levels, earlier)[last];
        assert forall|k: int| 0 <= k < after.len() implies {
            let change = #[trigger] after[k];
            let w = change.wire - first_wire;
            &&& change.value
            &&& 0 <= w < levels.len()
            &&& !levels[w]
            &&& target[w]
        } by {
            if k < before.len() {
                assert(after[k] == before[k]);
                let w = before[k].wire - first_wire;
                assert(target_before[w]);
            }
        }
        assert forall|k: int, l: int| 0 <= k < l < after.len() implies (#[trigger] after[k]).wire
            != (#[trigger] after[l]).wire by {
            assert(after[k] == before[k]);
            if l < before.len() {
                assert(after[l] == before[l]);
            } else {
                let w = before[k].wire - first_wire;
                assert(target_before[w]);
                assert(raised_levels(levels, earlier)[w] == (levels[w] || target_before[w]));
            }
        }
        assert forall|w: int|
            0 <= w < levels.len() && !levels[w] && #[trigger] target[w] implies exists|k: int|
            0 <= k < after.len() && (#[trigger] after[k]).wire == first_wire + w by {
            if target_before[w] {
                let k = choose|k: int|
                    0 <= k < before.len() && (#[trigger] before[k]).wire == first_wire + w;
                assert(after[k] == before[k]);
            } else {
                assert(w == last);
                assert(raised_levels(levels, earlier)[w] == (levels[w] || target_before[w]));
                assert(after[after.len() - 1].wire == first_wire + w);
            }
        }
    }
}

/// The wires that fall are the high wires that `items` does not name,
/// each once.
proof fn lemma_falling(first_wire: usize, levels: Seq<bool>, items: Seq<usize>, limit: nat)
    requires
        first_wire + levels.len() <= usize::MAX,
        limit <= levels.len(),
    ensures
        forall|k: int|
            0 <= k < falling(first_wire, levels, items, limit).len() ==> {
                let change = #[trigger] falling(first_wire, levels, items, limit)[k];
                let w = change.wire - first_wire;
                &&& !change.value
                &&& 0 <= w < limit
                &&& levels[w]
                &&& !target_levels(levels.len(), items)[w]
            },
        forall|k: int, l: int|
            0 <= k < l < falling(first_wire, levels, items, limit).len() ==> (#[trigger] falling(
                first_wire,
                levels,
                items,
                limit,
            )[k]).wire != (#[trigger] falling(first_wire, levels, items, limit)[l]).wire,
        forall|w: int|
            0 <= w < limit && levels[w] && !#[trigger] target_levels(levels.len(), items)[w]
                ==> exists|k: int|
                0 <= k < falling(first_wire, levels, items, limit).len() && (#[trigger] falling(
                    first_wire,
                    levels,
                    items,
                    limit,
                )[k]).wire == first_wire + w,
    decreases limit,
{
    if limit > 0 {
        lemma_falling(first_wire, levels, items, (limit - 1) as nat);
        let before = falling(first_wire, levels, items, (limit - 1) as nat);
        let after = falling(first_wire, levels, items, limit);
        let target = target_levels(levels.len(), items);
        assert forall|k: int| 0 <= k < after.len() implies {
            let change = #[trigger] after[k];
            let w = change.wire - first_wire;
            &&& !change.value
            &&& 0 <= w < limit
            &&& levels[w]
            &&& !target[w]
        } by {
            if k < before.len() {
                assert(after[k] == before[k]);
            }
        }
        assert forall|k: int, l: int| 0 <= k < l < after.len() implies (#[trigger] after[k]).wire
            != (#[trigger] after[l]).wire by {
            assert(after[k] == before[k]);
            if l < before.len() {
                assert(after[l] == before[l]);
            }
        }
        assert forall|w: int| 0 <= w < limit && levels[w] && !#[trigger] target[w] implies exists|
            k: int,
        | 0 <= k < after.len() && (#[trigger] after[k]).wire == first_wire + w by {
            if w < limit - 1 {
                let k = choose|k: int|
                    0 <= k < before.len() && (#[trigger] before[k]).wire == first_wire + w;
                assert(after[k] == before[k]);
            } else {
                assert(after[after.len() - 1].wire == first_wire + w);
            }
        }
    }
}

} // verus!
