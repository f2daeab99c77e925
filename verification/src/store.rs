//! The editable `PATH` list of one scope: its entries in order, the filter
//! text through which it is viewed, the selection, and the encoding it was
//! read as.

use crate::codec::{join_path, join_spec, split_path, split_spec};
use crate::encoding::ValueEncoding;
use crate::expand::{expand_chars, expand_spec, Environment};
use crate::normalize::{
    dedupe, dedupe_spec, lemma_dedupe_shape, sort_case_insensitive, sorted_from, stably_sorted,
};
use crate::text::{
    chars_of, contains_chars, is_trimmed, join_with, lemma_trim_is_trimmed, lower_chars, lowercase,
    occurs_in, push_chars, string_of, texts, trim, trim_chars,
};
use vstd::prelude::*;

verus! {

/// How a request to move the selected entries ended.
#[derive(Clone, Copy, Debug, PartialEq, Eq, Structural)]
pub enum MoveOutcome {
    /// Refused, and nothing changed: a filter is active, so the positions on
    /// view are not the positions of the list.
    FilterActive,
    /// Nothing is selected, and nothing changed.
    NothingSelected,
    /// The selected entries moved by one position where they could.
    Moved,
}

/// The `PATH` list of one scope.
pub struct PathStore {
    parts: Vec<String>,
    filter: String,
    selected: Vec<bool>,
    encoding: ValueEncoding,
}

/// Whether no position is marked.
pub open spec fn none_marked(marks: Seq<bool>) -> bool {
    forall|i: int| 0 <= i < marks.len() ==> !marks[i]
}

/// Whether every entry is non-empty and neither starts nor ends with white
/// space.
pub open spec fn solid_entries(xs: Seq<Seq<char>>) -> bool {
    forall|i: int| 0 <= i < xs.len() ==> (#[trigger] xs[i]).len() > 0 && is_trimmed(xs[i])
}

/// Whether a filter text is active: it holds more than white space.
pub open spec fn filter_active(filter: Seq<char>) -> bool {
    trim(filter).len() > 0
}

/// Whether an entry is on view through a filter text: the trimmed lowercase
/// filter is empty or occurs in the lowercase entry.
pub open spec fn visible(entry: Seq<char>, filter: Seq<char>) -> bool {
    lowercase(trim(filter)).len() == 0 || occurs_in(lowercase(trim(filter)), lowercase(entry))
}

/// The entries among the first `n` that are not marked, in order.
pub open spec fn unmarked(xs: Seq<Seq<char>>, marks: Seq<bool>, n: nat) -> Seq<Seq<char>>
    decreases n,
{
    if n == 0 {
        Seq::empty()
    } else if marks[n - 1] {
        unmarked(xs, marks, (n - 1) as nat)
    } else {
        unmarked(xs, marks, (n - 1) as nat).push(xs[n - 1])
    }
}

/// Whether position `i` and every position above it are marked: the entry
/// at `i` belongs to the block at the top that cannot move up.
pub open spec fn top_block(marks: Seq<bool>, i: int) -> bool {
    forall|j: int| 0 <= j <= i ==> marks[j]
}

/// The nearest position at or above `i` that is not marked.
pub open spec fn gap_above(marks: Seq<bool>, i: int) -> int
    decreases i,
{
    if i <= 0 || !marks[i] {
        i
    } else {
        gap_above(marks, i - 1)
    }
}

/// The selection after a move up: a marked entry outside the top block
/// takes its mark one position up.
pub open spec fn marks_moved_up(marks: Seq<bool>) -> Seq<bool> {
    Seq::new(marks.len(), |i: int| top_block(marks, i) || (i + 1 < marks.len() && marks[i + 1]))
}

/// The list after a move up. The top block stays. Every other marked entry
/// stands one position higher, and the unmarked entry that stood above a run
/// of marked entries stands below that run.
pub open spec fn entries_moved_up(xs: Seq<Seq<char>>, marks: Seq<bool>) -> Seq<Seq<char>> {
    Seq::new(
        xs.len(),
        |i: int|
            if top_block(marks, i) {
                xs[i]
            } else if i + 1 < xs.len() && marks[i + 1] {
                xs[i + 1]
            } else {
                xs[gap_above(marks, i)]
            },
    )
}

/// Whether position `i` and every position below it are marked: the entry
/// at `i` belongs to the block at the bottom that cannot move down.
pub open spec fn bottom_block(marks: Seq<bool>, i: int) -> bool {
    forall|j: int| i <= j < marks.len() ==> marks[j]
}

/// The nearest position at or below `i` that is not marked.
pub open spec fn gap_below(marks: Seq<bool>, i: int) -> int
    decreases marks.len() - i,
{
    if i + 1 >= marks.len() || !marks[i] {
        i
    } else {
        gap_below(marks, i + 1)
    }
}

/// The selection after a move down: a marked entry outside the bottom block
/// takes its mark one position down.
pub open spec fn marks_moved_down(marks: Seq<bool>) -> Seq<bool> {
    Seq::new(marks.len(), |i: int| bottom_block(marks, i) || (i >= 1 && marks[i - 1]))
}

/// The list after a move down. The bottom block stays. Every other marked
/// entry stands one position lower, and the unmarked entry that stood below a
/// run of marked entries stands above that run.
pub open spec fn entries_moved_down(xs: Seq<Seq<char>>, marks: Seq<bool>) -> Seq<Seq<char>> {
    Seq::new(
        xs.len(),
        |i: int|
            if bottom_block(marks, i) {
                xs[i]
            } else if i >= 1 && marks[i - 1] {
                xs[i - 1]
            } else {
                xs[gap_below(marks, i)]
            },
    )
}

/// `gap_above` is a position at or above `i`, and it is not marked unless
/// the top block reaches `i`.
pub proof fn lemma_gap_above(marks: Seq<bool>, i: int)
    requires
        0 <= i < marks.len(),
    ensures
        0 <= gap_above(marks, i) <= i,
        !top_block(marks, i) ==> !marks[gap_above(marks, i)],
    decreases i,
{
    if i > 0 && marks[i] {
        lemma_gap_above(marks, i - 1);
        if !top_block(marks, i) {
            assert(!top_block(marks, i - 1));
        }
    } else if i == 0 && marks[0] {
        assert(top_block(marks, 0));
    }
}

/// `gap_below` is a position at or below `i`, and it is not marked unless
/// the bottom block reaches `i`.
pub proof fn lemma_gap_below(marks: Seq<bool>, i: int)
    requires
        0 <= i < marks.len(),
    ensures
        i <= gap_below(marks, i) < marks.len(),
        !bottom_block(marks, i) ==> !marks[gap_below(marks, i)],
    decreases marks.len() - i,
{
    if i + 1 < marks.len() && marks[i] {
        lemma_gap_below(marks, i + 1);
        if !bottom_block(marks, i) {
            assert(!bottom_block(marks, i + 1));
        }
    } else if i + 1 == marks.len() && marks[i] {
        assert(bottom_block(marks, i));
    }
}

/// The top block reaches `i` if it reaches the position above and `i` is
/// marked.
pub proof fn lemma_top_block_step(marks: Seq<bool>, i: int)
    requires
        0 < i < marks.len(),
    ensures
        top_block(marks, i) == (top_block(marks, i - 1) && marks[i]),
        marks[i] ==> gap_above(marks, i) == gap_above(marks, i - 1),
        !marks[i] ==> gap_above(marks, i) == i,
{
    if top_block(marks, i - 1) && marks[i] {
        assert forall|j: int| 0 <= j <= i implies marks[j] by {
            if j < i {
                assert(0 <= j <= i - 1);
            }
        }
    }
    if top_block(marks, i) {
        assert(marks[i]);
        assert forall|j: int| 0 <= j <= i - 1 implies marks[j] by {
            assert(0 <= j <= i);
        }
    }
}

/// The bottom block reaches `i` if it reaches the position below and `i` is
/// marked.
pub proof fn lemma_bottom_block_step(marks: Seq<bool>, i: int)
    requires
        0 <= i < marks.len() - 1,
    ensures
        bottom_block(marks, i) == (bottom_block(marks, i + 1) && marks[i]),
        marks[i] ==> gap_below(marks, i) == gap_below(marks, i + 1),
        !marks[i] ==> gap_below(marks, i) == i,
{
    if bottom_block(marks, i + 1) && marks[i] {
        assert forall|j: int| i <= j < marks.len() implies marks[j] by {
            if j > i {
                assert(i + 1 <= j < marks.len());
            }
        }
    }
    if bottom_block(marks, i) {
        assert(marks[i]);
        assert forall|j: int| i + 1 <= j < marks.len() implies marks[j] by {
            assert(i <= j < marks.len());
        }
    }
}

impl PathStore {
    /// The entries, in order.
    pub closed spec fn entries(&self) -> Seq<Seq<char>> {
        texts(self.parts@)
    }

    /// For each position whether it is selected.
    pub closed spec fn marks(&self) -> Seq<bool> {
        self.selected@
    }

    /// The filter text.
    pub closed spec fn filter_text(&self) -> Seq<char> {
        self.filter@
    }

    /// The encoding that the value was last read or written with.
    pub closed spec fn encoding_of(&self) -> ValueEncoding {
        self.encoding
    }

    /// The invariant of the store: every position has its selection mark, and
    /// no entry is empty or starts or ends with white space.
    pub closed spec fn wf(&self) -> bool {
        &&& self.selected@.len() == self.parts@.len()
        &&& solid_entries(texts(self.parts@))
    }

    /// What `wf` says of the entries and marks.
    pub proof fn lemma_wf(&self)
        requires
            self.wf(),
        ensures
            self.marks().len() == self.entries().len(),
            solid_entries(self.entries()),
    {
    }

    /// Whether `after` has the entries, the filter and the encoding of this
    /// store, and as many selection marks.
    pub open spec fn same_list(self, after: PathStore) -> bool {
        &&& after.entries() == self.entries()
        &&& after.filter_text() == self.filter_text()
        &&& after.encoding_of() == self.encoding_of()
        &&& after.marks().len() == self.marks().len()
    }

    /// Whether `after` has the filter and the encoding of this store.
    pub open spec fn same_setting(self, after: PathStore) -> bool {
        &&& after.filter_text() == self.filter_text()
        &&& after.encoding_of() == self.encoding_of()
    }

    /// Whether `after` is this store with `filter` as its filter text.
    pub open spec fn filtered(self, after: PathStore, filter: Seq<char>) -> bool {
        &&& self.wf() ==> after.wf()
        &&& after.filter_text() == filter
        &&& after.entries() == self.entries()
        &&& after.marks() == self.marks()
        &&& after.encoding_of() == self.encoding_of()
    }

    /// Whether `after` is this store with `encoding` as its encoding.
    pub open spec fn encoded(self, after: PathStore, encoding: ValueEncoding) -> bool {
        &&& self.wf() ==> after.wf()
        &&& after.encoding_of() == encoding
        &&& after.entries() == self.entries()
        &&& after.marks() == self.marks()
        &&& after.filter_text() == self.filter_text()
    }

    /// Whether `after` is this store after a click on position `idx`. A
    /// click beyond the list changes nothing. An additive click turns the
    /// mark of `idx` over and leaves the others; a plain click marks `idx`
    /// alone.
    pub open spec fn clicked(self, after: PathStore, idx: usize, additive: bool) -> bool {
        &&& after.wf()
        &&& self.same_list(after)
        &&& idx >= self.marks().len() ==> after.marks() == self.marks()
        &&& idx < self.marks().len() ==> forall|i: int|
            0 <= i < self.marks().len() ==> after.marks()[i] == if i == idx {
                !additive || !self.marks()[i]
            } else {
                additive && self.marks()[i]
            }
    }

    /// Whether `after` is this store with nothing selected.
    pub open spec fn cleared(self, after: PathStore) -> bool {
        &&& after.wf()
        &&& self.same_list(after)
        &&& none_marked(after.marks())
    }

    /// Whether `after` is this store after a request to add `text`: the
    /// trimmed text stands at the end, unselected, if it is not empty, and
    /// nothing changed if it is.
    pub open spec fn added(self, after: PathStore, text: Seq<char>, added: bool) -> bool {
        &&& after.wf()
        &&& self.same_setting(after)
        &&& added == (trim(text).len() > 0)
        &&& added ==> after.entries() == self.entries().push(trim(text))
        &&& added ==> after.marks() == self.marks().push(false)
        &&& !added ==> after.entries() == self.entries()
        &&& !added ==> after.marks() == self.marks()
    }

    /// Whether `after` is this store without its selected entries, the
    /// others in their order, nothing selected, and `removed` the number of
    /// entries that left.
    pub open spec fn removed(self, after: PathStore, removed: usize) -> bool {
        &&& after.wf()
        &&& self.same_setting(after)
        &&& after.entries() == unmarked(self.entries(), self.marks(), self.entries().len())
        &&& removed == self.entries().len() - after.entries().len()
        &&& after.marks().len() == after.entries().len()
        &&& none_marked(after.marks())
    }

    /// The outcome of a request to move the selection of this store.
    pub open spec fn move_outcome(self) -> MoveOutcome {
        if filter_active(self.filter_text()) {
            MoveOutcome::FilterActive
        } else if none_marked(self.marks()) {
            MoveOutcome::NothingSelected
        } else {
            MoveOutcome::Moved
        }
    }

    /// Whether `after` is this store after a request to move the selection,
    /// up if `direction` is negative and down otherwise. Unless the outcome
    /// is `Moved`, nothing changed.
    pub open spec fn moved(self, after: PathStore, direction: i32, outcome: MoveOutcome) -> bool {
        &&& after.wf()
        &&& self.same_setting(after)
        &&& outcome == self.move_outcome()
        &&& outcome != MoveOutcome::Moved ==> after.entries() == self.entries() && after.marks()
            == self.marks()
        &&& outcome == MoveOutcome::Moved && direction < 0 ==> after.entries() == entries_moved_up(
            self.entries(),
            self.marks(),
        ) && after.marks() == marks_moved_up(self.marks())
        &&& outcome == MoveOutcome::Moved && direction >= 0 ==> after.entries()
            == entries_moved_down(self.entries(), self.marks()) && after.marks()
            == marks_moved_down(self.marks())
    }

    /// Whether `after` is this store without duplicates, nothing selected,
    /// and `removed` the number of entries that left.
    pub open spec fn deduped(
        self,
        after: PathStore,
        env: Map<Seq<char>, Seq<char>>,
        removed: usize,
    ) -> bool {
        &&& after.wf()
        &&& self.same_setting(after)
        &&& after.entries() == dedupe_spec(self.entries(), env)
        &&& removed == self.entries().len() - after.entries().len()
        &&& after.marks().len() == after.entries().len()
        &&& none_marked(after.marks())
    }

    /// Whether `after` is this store sorted, nothing selected.
    pub open spec fn sorted(self, after: PathStore) -> bool {
        &&& after.wf()
        &&& self.same_setting(after)
        &&& stably_sorted(self.entries(), after.entries())
        &&& after.marks().len() == after.entries().len()
        &&& none_marked(after.marks())
    }

    /// The store of a value read from the registry: the entries of `raw`,
    /// no filter, nothing selected.
    pub fn new(raw: String, reg_type: ValueEncoding) -> (store: PathStore)
        ensures
            store.wf(),
            store.entries() == split_spec(raw@),
            store.marks().len() == store.entries().len(),
            none_marked(store.marks()),
            store.filter_text().len() == 0,
            store.encoding_of() == reg_type,
    {
        let parts = split_path(raw.as_str());
        let selected = clear_marks(parts.len());
        PathStore { parts, filter: String::new(), selected, encoding: reg_type }
    }

    /// The entries, in order.
    pub fn parts(&self) -> (parts: &Vec<String>)
        ensures
            texts(parts@) == self.entries(),
    {
        &self.parts
    }

    /// The number of entries.
    pub fn len(&self) -> (n: usize)
        ensures
            n == self.entries().len(),
    {
        self.parts.len()
    }

    /// The filter text.
    pub fn filter(&self) -> (filter: &String)
        ensures
            filter@ == self.filter_text(),
    {
        &self.filter
    }

    /// Replaces the filter text. The list and the selection stay.
    pub fn set_filter(&mut self, filter: String)
        ensures
            old(self).filtered(*final(self), filter@),
    {
        self.filter = filter;
    }

    /// The encoding that the value was last read or written with.
    pub fn encoding(&self) -> (e: ValueEncoding)
        ensures
            e == self.encoding_of(),
    {
        self.encoding
    }

    /// Records the encoding that the value was written with.
    pub fn set_encoding(&mut self, encoding: ValueEncoding)
        ensures
            old(self).encoded(*final(self), encoding),
    {
        self.encoding = encoding;
    }

    /// Whether the entry at `idx` is selected. No position beyond the list is.
    pub fn is_selected(&self, idx: usize) -> (b: bool)
        requires
            self.wf(),
        ensures
            b == (idx < self.marks().len() && self.marks()[idx as int]),
    {
        idx < self.selected.len() && self.selected[idx]
    }

    /// The selected positions, ascending.
    pub fn selected_indices(&self) -> (r: Vec<usize>)
        requires
            self.wf(),
        ensures
            forall|k: int|
                0 <= k < r@.len() ==> r@[k] < self.marks().len() && self.marks()[r@[k] as int],
            forall|k: int, l: int| 0 <= k < l < r@.len() ==> r@[k] < r@[l],
            forall|i: int|
                0 <= i < self.marks().len() && self.marks()[i] ==> r@.contains(i as usize),
    {
        let mut r: Vec<usize> = Vec::new();
        let mut i: usize = 0;
        while i < self.selected.len()
            invariant
                i <= self.selected@.len(),
                forall|k: int| 0 <= k < r@.len() ==> r@[k] < i && self.selected@[r@[k] as int],
                forall|k: int, l: int| 0 <= k < l < r@.len() ==> r@[k] < r@[l],
                forall|j: int| 0 <= j < i && self.selected@[j] ==> r@.contains(j as usize),
            decreases self.selected@.len() - i,
        {
            if self.selected[i] {
                let ghost before = r@;
                r.push(i);
                proof {
                    assert(r@[before.len() as int] == i);
                    assert forall|j: int| 0 <= j < i + 1 && self.selected@[j] implies r@.contains(
                        j as usize,
                    ) by {
                        if j < i {
                            let k = choose|k: int| 0 <= k < before.len() && before[k] == j as usize;
                            assert(r@[k] == j as usize);
                        }
                    }
                }
            }
            i += 1;
        }
        r
    }

    /// Handles a click on the entry at `idx`. An additive click (with the
    /// control key) turns the selection of that entry over and leaves the
    /// others; a plain click selects that entry alone. A click beyond the
    /// list changes nothing.
    pub fn click(&mut self, idx: usize, additive: bool)
        requires
            old(self).wf(),
        ensures
            old(self).clicked(*final(self), idx, additive),
    {
        if idx >= self.selected.len() {
            return ;
        }
        if additive {
            let was = self.selected[idx];
            self.selected[idx] = !was;
        } else {
            let mut marks = clear_marks(self.parts.len());
            marks[idx] = true;
            self.selected = marks;
        }
    }

    /// Clears the selection.
    pub fn clear_selection(&mut self)
        requires
            old(self).wf(),
        ensures
            old(self).cleared(*final(self)),
    {
        self.selected = clear_marks(self.parts.len());
    }

    /// The positions on view through the filter, ascending: those whose
    /// entry holds the trimmed filter text, case ignored. An empty filter
    /// shows every position. The list is not changed.
    pub fn visible_indices(&self) -> (r: Vec<usize>)
        ensures
            forall|k: int|
                0 <= k < r@.len() ==> r@[k] < self.entries().len() && visible(
                    self.entries()[r@[k] as int],
                    self.filter_text(),
                ),
            forall|k: int, l: int| 0 <= k < l < r@.len() ==> r@[k] < r@[l],
            forall|i: int|
                0 <= i < self.entries().len() && visible(self.entries()[i], self.filter_text())
                    ==> r@.contains(i as usize),
    {
        let f = chars_of(self.filter.as_str());
        let needle = lower_chars(&trim_chars(&f));
        let ghost xs = texts(self.parts@);
        let mut r: Vec<usize> = Vec::new();
        let mut i: usize = 0;
        while i < self.parts.len()
            invariant
                i <= self.parts@.len(),
                xs == texts(self.parts@),
                needle@ == lowercase(trim(self.filter@)),
                forall|k: int|
                    0 <= k < r@.len() ==> r@[k] < i && visible(xs[r@[k] as int], self.filter@),
                forall|k: int, l: int| 0 <= k < l < r@.len() ==> r@[k] < r@[l],
                forall|j: int|
                    0 <= j < i && visible(xs[j], self.filter@) ==> r@.contains(j as usize),
            decreases self.parts@.len() - i,
        {
            let entry = lower_chars(&chars_of(self.parts[i].as_str()));
            if needle.len() == 0 || contains_chars(&entry, &needle) {
                let ghost before = r@;
                r.push(i);
                proof {
                    assert(r@[before.len() as int] == i);
                    assert forall|j: int|
                        0 <= j < i + 1 && visible(xs[j], self.filter@) implies r@.contains(
                        j as usize,
                    ) by {
                        if j < i {
                            let k = choose|k: int| 0 <= k < before.len() && before[k] == j as usize;
                            assert(r@[k] == j as usize);
                        }
                    }
                }
            }
            i += 1;
        }
        r
    }

    /// The `PATH` text of the list as it stands.
    pub fn raw_preview(&self) -> (text: String)
        ensures
            text@ == join_spec(self.entries()),
    {
        join_path(self.parts.as_slice())
    }

    /// Adds `text`, trimmed, as a new entry at the end, unselected. Text
    /// that is empty after trimming adds nothing. Tells whether an entry was
    /// added.
    pub fn add(&mut self, text: &str) -> (added: bool)
        requires
            old(self).wf(),
        ensures
            old(self).added(*final(self), text@, added),
    {
        let v = trim_chars(&chars_of(text));
        if v.len() == 0 {
            return false;
        }
        let ghost before = texts(self.parts@);
        self.parts.push(string_of(&v));
        self.selected.push(false);
        proof {
            lemma_trim_is_trimmed(text@);
            assert(texts(self.parts@) =~= before.push(v@));
            assert forall|i: int| 0 <= i < texts(self.parts@).len() implies (#[trigger] texts(
                self.parts@,
            )[i]).len() > 0 && is_trimmed(texts(self.parts@)[i]) by {
                if i < before.len() {
                    assert(texts(self.parts@)[i] == before[i]);
                }
            }
        }
        true
    }

    /// Removes the selected entries and clears the selection. The other
    /// entries keep their order. Returns the number of entries removed.
    pub fn remove_selected(&mut self) -> (removed: usize)
        requires
            old(self).wf(),
        ensures
            old(self).removed(*final(self), removed),
    {
        let ghost xs = texts(self.parts@);
        let ghost marks = self.selected@;
        let n = self.parts.len();
        let mut kept: Vec<String> = Vec::new();
        let mut i: usize = 0;
        proof {
            assert(texts(kept@) =~= Seq::<Seq<char>>::empty());
        }
        while i < n
            invariant
                n == self.parts@.len(),
                n == self.selected@.len(),
                xs == texts(self.parts@),
                marks == self.selected@,
                solid_entries(xs),
                i <= n,
                kept@.len() <= i,
                texts(kept@) == unmarked(xs, marks, i as nat),
                solid_entries(texts(kept@)),
            decreases n - i,
        {
            if !self.selected[i] {
                let ghost before = texts(kept@);
                kept.push(self.parts[i].clone());
                proof {
                    assert(texts(kept@) =~= before.push(xs[i as int]));
                    assert forall|k: int| 0 <= k < texts(kept@).len() implies (#[trigger] texts(
                        kept@,
                    )[k]).len() > 0 && is_trimmed(texts(kept@)[k]) by {
                        if k < before.len() {
                            assert(texts(kept@)[k] == before[k]);
                        }
                    }
                }
            }
            i += 1;
        }
        let removed = n - kept.len();
        self.selected = clear_marks(kept.len());
        self.parts = kept;
        removed
    }

    /// Moves the selected entries by one position: up if `direction` is
    /// negative, down otherwise. While a filter is active the request is
    /// refused and nothing changes. Entries move as blocks: a selected entry
    /// moves unless a selected neighbour, or the end of the list, stands in
    /// its way. The selection follows the entries.
    pub fn move_selected(&mut self, direction: i32) -> (outcome: MoveOutcome)
        requires
            old(self).wf(),
        ensures
            old(self).moved(*final(self), direction, outcome),
    {
        let f = trim_chars(&chars_of(self.filter.as_str()));
        if f.len() > 0 {
            return MoveOutcome::FilterActive;
        }
        if !any_marked(&self.selected) {
            return MoveOutcome::NothingSelected;
        }
        if direction < 0 {
            self.move_up();
        } else {
            self.move_down();
        }
        MoveOutcome::Moved
    }

    /// Exchanges the entries and the marks of two positions.
    fn exchange(&mut self, a: usize, b: usize)
        requires
            old(self).wf(),
            a < old(self).parts@.len(),
            b < old(self).parts@.len(),
        ensures
            final(self).wf(),
            final(self).filter == old(self).filter,
            final(self).encoding == old(self).encoding,
            final(self).parts@.len() == old(self).parts@.len(),
            final(self).entries() == old(self).entries().update(
                a as int,
                old(self).entries()[b as int],
            ).update(b as int, old(self).entries()[a as int]),
            final(self).marks() == old(self).marks().update(
                a as int,
                old(self).marks()[b as int],
            ).update(b as int, old(self).marks()[a as int]),
    {
        let ghost xs = texts(self.parts@);
        let x = self.parts[a].clone();
        let y = self.parts[b].clone();
        self.parts[a] = y;
        self.parts[b] = x;
        let p = self.selected[a];
        let q = self.selected[b];
        self.selected[a] = q;
        self.selected[b] = p;
        proof {
            let now = texts(self.parts@);
            assert(now =~= xs.update(a as int, xs[b as int]).update(b as int, xs[a as int]));
            assert forall|i: int| 0 <= i < now.len() implies (#[trigger] now[i]).len() > 0
                && is_trimmed(now[i]) by {
                assert(now[i] == xs[i] || now[i] == xs[a as int] || now[i] == xs[b as int]);
            }
        }
    }

    /// One pass from the top: each selected entry changes places with an
    /// unselected entry right above it.
    fn move_up(&mut self)
        requires
            old(self).wf(),
        ensures
            final(self).wf(),
            final(self).filter == old(self).filter,
            final(self).encoding == old(self).encoding,
            final(self).entries() == entries_moved_up(old(self).entries(), old(self).marks()),
            final(self).marks() == marks_moved_up(old(self).marks()),
    {
        let ghost xs = self.entries();
        let ghost ms = self.marks();
        let n = self.parts.len();
        if n == 0 {
            proof {
                assert(self.entries() =~= entries_moved_up(xs, ms));
                assert(self.marks() =~= marks_moved_up(ms));
            }
            return ;
        }
        let mut p: usize = 1;
        proof {
            if ms[0] {
                assert(top_block(ms, 0));
            }
        }
        while p < n
            invariant
                self.wf(),
                self.filter == old(self).filter,
                self.encoding == old(self).encoding,
                n == xs.len(),
                n == ms.len(),
                n == self.parts@.len(),
                n == self.selected@.len(),
                1 <= p <= n,
                forall|i: int| p <= i < n ==> #[trigger] self.entries()[i] == xs[i],
                forall|i: int| p <= i < n ==> #[trigger] self.marks()[i] == ms[i],
                forall|i: int|
                    0 <= i < p - 1 ==> #[trigger] self.entries()[i] == entries_moved_up(xs, ms)[i],
                forall|i: int|
                    0 <= i < p - 1 ==> #[trigger] self.marks()[i] == marks_moved_up(ms)[i],
                top_block(ms, p - 1) ==> self.entries()[p - 1] == xs[p - 1] && self.marks()[p - 1],
                !top_block(ms, p - 1) ==> self.entries()[p - 1] == xs[gap_above(ms, p - 1)]
                    && !self.marks()[p - 1],
            decreases n - p,
        {
            let ghost c0 = self.entries();
            let ghost f0 = self.marks();
            proof {
                lemma_gap_above(ms, p as int);
                lemma_gap_above(ms, p - 1);
                lemma_top_block_step(ms, p as int);
            }
            if self.selected[p] && !self.selected[p - 1] {
                self.exchange(p - 1, p);
            }
            proof {
                let target = entries_moved_up(xs, ms);
                let marked = marks_moved_up(ms);
                assert(self.entries()[p - 1] == target[p - 1]);
                assert(self.marks()[p - 1] == marked[p - 1]);
                assert forall|i: int| 0 <= i < p implies #[trigger] self.entries()[i]
                    == target[i] by {
                    if i < p - 1 {
                        assert(self.entries()[i] == c0[i]);
                    }
                }
                assert forall|i: int| 0 <= i < p implies #[trigger] self.marks()[i]
                    == marked[i] by {
                    if i < p - 1 {
                        assert(self.marks()[i] == f0[i]);
                    }
                }
                assert forall|i: int| p + 1 <= i < n implies #[trigger] self.entries()[i]
                    == xs[i] by {
                    assert(self.entries()[i] == c0[i]);
                }
                assert forall|i: int| p + 1 <= i < n implies #[trigger] self.marks()[i]
                    == ms[i] by {
                    assert(self.marks()[i] == f0[i]);
                }
            }
            p += 1;
        }
        proof {
            assert(self.entries() =~= entries_moved_up(xs, ms));
            assert(self.marks() =~= marks_moved_up(ms));
        }
    }

    /// One pass from the bottom: each selected entry changes places with an
    /// unselected entry right below it.
    fn move_down(&mut self)
        requires
            old(self).wf(),
        ensures
            final(self).wf(),
            final(self).filter == old(self).filter,
            final(self).encoding == old(self).encoding,
            final(self).entries() == entries_moved_down(old(self).entries(), old(self).marks()),
            final(self).marks() == marks_moved_down(old(self).marks()),
    {
        let ghost xs = self.entries();
        let ghost ms = self.marks();
        let n = self.parts.len();
        if n == 0 {
            proof {
                assert(self.entries() =~= entries_moved_down(xs, ms));
                assert(self.marks() =~= marks_moved_down(ms));
            }
            return ;
        }
        let mut p: usize = n - 1;
        proof {
            if ms[n - 1] {
                assert(bottom_block(ms, n - 1));
            }
        }
        while p > 0
            invariant
                self.wf(),
                self.filter == old(self).filter,
                self.encoding == old(self).encoding,
                n == xs.len(),
                n == ms.len(),
                n == self.parts@.len(),
                n == self.selected@.len(),
                0 <= p < n,
                forall|i: int| 0 <= i < p ==> #[trigger] self.entries()[i] == xs[i],
                forall|i: int| 0 <= i < p ==> #[trigger] self.marks()[i] == ms[i],
                forall|i: int|
                    p < i < n ==> #[trigger] self.entries()[i] == entries_moved_down(xs, ms)[i],
                forall|i: int| p < i < n ==> #[trigger] self.marks()[i] == marks_moved_down(ms)[i],
                bottom_block(ms, p as int) ==> self.entries()[p as int] == xs[p as int]
                    && self.marks()[p as int],
                !bottom_block(ms, p as int) ==> self.entries()[p as int] == xs[gap_below(
                    ms,
                    p as int,
                )] && !self.marks()[p as int],
            decreases p,
        {
            let ghost c0 = self.entries();
            let ghost f0 = self.marks();
            proof {
                lemma_gap_below(ms, p as int);
                lemma_gap_below(ms, p - 1);
                lemma_bottom_block_step(ms, p - 1);
            }
            if self.selected[p - 1] && !self.selected[p] {
                self.exchange(p - 1, p);
            }
            proof {
                let target = entries_moved_down(xs, ms);
                let marked = marks_moved_down(ms);
                assert(self.entries()[p as int] == target[p as int]);
                assert(self.marks()[p as int] == marked[p as int]);
                assert forall|i: int| p <= i < n implies #[trigger] self.entries()[i]
                    == target[i] by {
                    if i > p {
                        assert(self.entries()[i] == c0[i]);
                    }
                }
                assert forall|i: int| p <= i < n implies #[trigger] self.marks()[i]
                    == marked[i] by {
                    if i > p {
                        assert(self.marks()[i] == f0[i]);
                    }
                }
                assert forall|i: int| 0 <= i < p - 1 implies #[trigger] self.entries()[i]
                    == xs[i] by {
                    assert(self.entries()[i] == c0[i]);
                }
                assert forall|i: int| 0 <= i < p - 1 implies #[trigger] self.marks()[i]
                    == ms[i] by {
                    assert(self.marks()[i] == f0[i]);
                }
            }
            p -= 1;
        }
        proof {
            assert(self.entries() =~= entries_moved_down(xs, ms));
            assert(self.marks() =~= marks_moved_down(ms));
        }
    }

    /// Removes duplicates from the list, the first of each kept, and clears
    /// the selection. Returns the number of entries removed.
    pub fn apply_dedupe(&mut self, env: &Environment) -> (removed: usize)
        requires
            old(self).wf(),
        ensures
            old(self).deduped(*final(self), env@, removed),
    {
        let before = self.parts.len();
        let kept = dedupe(self.parts.as_slice(), env);
        proof {
            let xs = texts(self.parts@);
            let ys = texts(kept@);
            lemma_dedupe_shape(xs, env@);
            assert forall|k: int| 0 <= k < ys.len() implies (#[trigger] ys[k]).len() > 0
                && is_trimmed(ys[k]) by {
                assert(xs.contains(ys[k]));
                let j = choose|j: int| 0 <= j < xs.len() && xs[j] == ys[k];
                assert(xs[j].len() > 0);
            }
        }
        let removed = before - kept.len();
        self.selected = clear_marks(kept.len());
        self.parts = kept;
        removed
    }

    /// Sorts the list by lowercase text, entries with the same lowercase
    /// text keeping their order, and clears the selection.
    pub fn apply_sort(&mut self)
        requires
            old(self).wf(),
        ensures
            old(self).sorted(*final(self)),
    {
        let ghost xs = texts(self.parts@);
        sort_case_insensitive(&mut self.parts);
        self.selected = clear_marks(self.parts.len());
        proof {
            let ys = texts(self.parts@);
            let from = choose|from: Seq<int>| sorted_from(xs, ys, from);
            assert forall|k: int| 0 <= k < ys.len() implies (#[trigger] ys[k]).len() > 0
                && is_trimmed(ys[k]) by {
                assert(ys[k] == xs[from[k]]);
            }
        }
    }

    /// The text that shows each entry with its expansion: the entry, a line
    /// break, `    -> ` and the expanded entry; a blank line between entries.
    pub fn expanded_preview(&self, env: &Environment) -> (text: String)
        ensures
            text@ == join_with(expansion_lines(self.entries(), env@), "\n\n"@),
    {
        let arrow = chars_of("\n    -> ");
        let gap = chars_of("\n\n");
        let ghost xs = texts(self.parts@);
        let ghost lines = expansion_lines(xs, env@);
        let mut out: Vec<char> = Vec::new();
        let mut i: usize = 0;
        proof {
            assert(lines.take(0) =~= Seq::<Seq<char>>::empty());
        }
        while i < self.parts.len()
            invariant
                i <= self.parts@.len(),
                xs == texts(self.parts@),
                lines == expansion_lines(xs, env@),
                arrow@ == "\n    -> "@,
                gap@ == "\n\n"@,
                out@ == join_with(lines.take(i as int), gap@),
            decreases self.parts@.len() - i,
        {
            let entry = chars_of(self.parts[i].as_str());
            let expanded = expand_chars(&entry, env);
            let ghost before = out@;
            proof {
                let next = lines.take(i + 1);
                assert(next.drop_last() =~= lines.take(i as int));
                assert(next.last() == entry@ + arrow@ + expanded@);
            }
            if i > 0 {
                push_chars(&mut out, &gap);
            }
            push_chars(&mut out, &entry);
            push_chars(&mut out, &arrow);
            push_chars(&mut out, &expanded);
            proof {
                let line = entry@ + arrow@ + expanded@;
                if i > 0 {
                    assert(out@ =~= before + gap@ + line);
                } else {
                    assert(out@ =~= line);
                }
            }
            i += 1;
        }
        proof {
            assert(lines.take(self.parts@.len() as int) =~= lines);
        }
        string_of(&out)
    }
}

/// While a filter is active a request to move is refused, whichever way it
/// goes and whatever is selected, and it changes neither the list nor the
/// selection.
pub proof fn lemma_move_refused_while_filtering(
    before: PathStore,
    after: PathStore,
    direction: i32,
    outcome: MoveOutcome,
)
    requires
        filter_active(before.filter_text()),
        before.moved(after, direction, outcome),
    ensures
        outcome == MoveOutcome::FilterActive,
        after.entries() == before.entries(),
        after.marks() == before.marks(),
{
}

/// For each entry the text that shows it with its expansion.
pub open spec fn expansion_lines(xs: Seq<Seq<char>>, env: Map<Seq<char>, Seq<char>>) -> Seq<
    Seq<char>,
> {
    Seq::new(xs.len(), |i: int| xs[i] + "\n    -> "@ + expand_spec(xs[i], env))
}

/// `n` marks, none set.
fn clear_marks(n: usize) -> (marks: Vec<bool>)
    ensures
        marks@.len() == n,
        none_marked(marks@),
{
    let mut marks: Vec<bool> = Vec::new();
    let mut i: usize = 0;
    while i < n
        invariant
            i <= n,
            marks@.len() == i,
            none_marked(marks@),
        decreases n - i,
    {
        marks.push(false);
        i += 1;
    }
    marks
}

/// Whether a mark is set.
fn any_marked(marks: &Vec<bool>) -> (b: bool)
    ensures
        b == !none_marked(marks@),
{
    let mut i: usize = 0;
    while i < marks.len()
        invariant
            i <= marks.len(),
            forall|k: int| 0 <= k < i ==> !marks@[k],
        decreases marks.len() - i,
    {
        if marks[i] {
            return true;
        }
        i += 1;
    }
    false
}

} // verus!
