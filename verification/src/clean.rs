//! Deleting the selected categories, step by step.
//!
//! A [`Deletion`] decides what to remove next and what progress to report;
//! whoever drives it performs each removal (or the simulator command) and
//! tells it whether that worked. Deletion is permanent (no Trash staging):
//! the caller is expected to have confirmed.
use vstd::prelude::*;
use crate::scan::{
    allowed_items, assert_deletable, checked_deletable_total, item_views, lemma_allowed_items,
    lemma_sum_sizes_prefix_le, path_denied, sum_sizes, Category, CategoryEntry, EntryView, Item,
    ItemView,
};

verus! {

/// A progress report of a running deletion.
pub enum Progress {
    /// One item (or a whole command-cleaned category) was deleted.
    Item { path: String, done_bytes: u64, total_bytes: u64 },
    /// The deletion finished: bytes freed per category, and in all.
    Done { per_category: Vec<(&'static str, u64)>, total_freed: u64 },
}

pub enum ProgressView {
    Item { path: Seq<char>, done_bytes: u64, total_bytes: u64 },
    Done { per_category: Seq<(Seq<char>, u64)>, total_freed: u64 },
}

/// The views of per-category records.
pub open spec fn record_views(v: Seq<(&'static str, u64)>) -> Seq<(Seq<char>, u64)> {
    v.map_values(|p: (&'static str, u64)| (p.0@, p.1))
}

impl View for Progress {
    type V = ProgressView;

    open spec fn view(&self) -> ProgressView {
        match self {
            Progress::Item { path, done_bytes, total_bytes } => ProgressView::Item {
                path: path@,
                done_bytes: *done_bytes,
                total_bytes: *total_bytes,
            },
            Progress::Done { per_category, total_freed } => ProgressView::Done {
                per_category: record_views(per_category@),
                total_freed: *total_freed,
            },
        }
    }
}

/// One selected category, with the items of it that may be deleted.
pub struct TargetView {
    pub category: Category,
    pub items: Seq<ItemView>,
    pub total_size: u64,
}

/// An entry's total is the sum of its items' sizes (as a scan builds it).
pub open spec fn entry_wf(e: EntryView) -> bool {
    sum_sizes(e.items) == e.total_size
}

/// The sum of the totals of the selected entries.
pub open spec fn selected_total(entries: Seq<EntryView>) -> nat
    decreases entries.len(),
{
    if entries.len() == 0 {
        0
    } else {
        selected_total(entries.drop_last()) + if entries.last().selected {
            entries.last().total_size as nat
        } else {
            0nat
        }
    }
}

/// The selected entries, in order, each with its deletable items.
pub open spec fn selected_targets(entries: Seq<EntryView>) -> Seq<TargetView>
    decreases entries.len(),
{
    if entries.len() == 0 {
        Seq::empty()
    } else if entries.last().selected {
        selected_targets(entries.drop_last()).push(
            TargetView {
                category: entries.last().category,
                items: allowed_items(entries.last().items),
                total_size: entries.last().total_size,
            },
        )
    } else {
        selected_targets(entries.drop_last())
    }
}

/// The sum of the totals of the first `k` targets.
pub open spec fn targets_total(t: Seq<TargetView>, k: int) -> nat
    decreases k,
{
    if k <= 0 {
        0
    } else {
        targets_total(t, k - 1) + t[k - 1].total_size as nat
    }
}

/// The sum of the freed bytes of the records.
pub open spec fn records_total(r: Seq<(Seq<char>, u64)>) -> nat
    decreases r.len(),
{
    if r.len() == 0 {
        0
    } else {
        records_total(r.drop_last()) + r.last().1 as nat
    }
}

pub struct DeletionView {
    pub targets: Seq<TargetView>,
    pub dry_run: bool,
    pub total_bytes: u64,
    pub done_bytes: u64,
    pub per_category: Seq<(Seq<char>, u64)>,
    pub entry: nat,
    pub item: nat,
    pub freed: u64,
    pub awaiting: bool,
}

/// Whether a target is cleaned by the simulator command rather than item by item.
pub open spec fn by_command(t: TargetView) -> bool {
    t.category == Category::XcodeSimulators
}

/// Closes the item-by-item categories whose items have all been handled,
/// recording what each freed, up to the next one with work left.
pub open spec fn settle(v: DeletionView) -> DeletionView
    decreases v.targets.len() - v.entry,
{
    if v.entry < v.targets.len() && !by_command(v.targets[v.entry as int]) && v.item
        >= v.targets[v.entry as int].items.len() {
        settle(
            DeletionView {
                per_category: v.per_category.push(
                    (v.targets[v.entry as int].category.label_text(), v.freed),
                ),
                entry: v.entry + 1,
                item: 0,
                freed: 0,
                ..v
            },
        )
    } else {
        v
    }
}

/// The text reported for a category cleaned by the simulator command.
pub open spec fn command_report(c: Category) -> Seq<char> {
    c.label_text() + " (via xcrun simctl)"@
}

/// The state after the outcome of the handed-out step, and the report.
pub open spec fn after_outcome(v: DeletionView, ok: bool) -> (DeletionView, Option<ProgressView>) {
    let t = v.targets[v.entry as int];
    if by_command(t) {
        let freed: u64 = if ok { t.total_size } else { 0 };
        let done: u64 = if ok { (v.done_bytes + t.total_size) as u64 } else { v.done_bytes };
        (
            DeletionView {
                done_bytes: done,
                per_category: v.per_category.push((t.category.label_text(), freed)),
                entry: v.entry + 1,
                item: 0,
                freed: 0,
                awaiting: false,
                ..v
            },
            if ok {
                Some(
                    ProgressView::Item {
                        path: command_report(t.category),
                        done_bytes: done,
                        total_bytes: v.total_bytes,
                    },
                )
            } else {
                None
            },
        )
    } else {
        let it = t.items[v.item as int];
        if ok {
            let done = (v.done_bytes + it.size) as u64;
            (
                DeletionView {
                    done_bytes: done,
                    item: v.item + 1,
                    freed: (v.freed + it.size) as u64,
                    awaiting: false,
                    ..v
                },
                Some(ProgressView::Item { path: it.path, done_bytes: done, total_bytes: v.total_bytes }),
            )
        } else {
            (DeletionView { item: v.item + 1, awaiting: false, ..v }, None)
        }
    }
}

/// The next piece of outside work a deletion asks for.
pub enum DeleteAction {
    /// Remove this file or directory (recursively).
    Remove { path: String },
    /// Run `xcrun simctl delete all`.
    RunSimctl,
    /// A dry run: remove nothing, and report the step as done.
    DryRun,
    /// Nothing is left; report the result of [`Deletion::finish`].
    Finish,
}

struct Target {
    category: Category,
    items: Vec<Item>,
    total_size: u64,
}

impl View for Target {
    type V = TargetView;

    closed spec fn view(&self) -> TargetView {
        TargetView { category: self.category, items: item_views(self.items@), total_size: self.total_size }
    }
}

/// A deletion of the selected categories in progress.
pub struct Deletion {
    targets: Vec<Target>,
    dry_run: bool,
    total_bytes: u64,
    done_bytes: u64,
    per_category: Vec<(&'static str, u64)>,
    entry: usize,
    item: usize,
    freed: u64,
    awaiting: bool,
}

impl View for Deletion {
    type V = DeletionView;

    closed spec fn view(&self) -> DeletionView {
        DeletionView {
            targets: self.targets@.map_values(|t: Target| t@),
            dry_run: self.dry_run,
            total_bytes: self.total_bytes,
            done_bytes: self.done_bytes,
            per_category: record_views(self.per_category@),
            entry: self.entry as nat,
            item: self.item as nat,
            freed: self.freed,
            awaiting: self.awaiting,
        }
    }
}

/// The most a target can free: its total when the simulator command cleans
/// it, otherwise the sizes of its deletable items.
pub open spec fn freeable(t: TargetView) -> nat {
    if by_command(t) {
        t.total_size as nat
    } else {
        sum_sizes(t.items)
    }
}

/// What the first `k` targets can free together.
pub open spec fn freeable_prefix(t: Seq<TargetView>, k: int) -> nat
    decreases k,
{
    if k <= 0 {
        0
    } else {
        freeable_prefix(t, k - 1) + freeable(t[k - 1])
    }
}

/// The most deleting an entry can free: its total when the simulator
/// command cleans it, otherwise the sizes of its deletable items.
pub open spec fn entry_freeable(e: EntryView) -> nat {
    if e.category == Category::XcodeSimulators {
        e.total_size as nat
    } else {
        sum_sizes(allowed_items(e.items))
    }
}

/// The most deleting the selected entries can free.
pub open spec fn selected_freeable(entries: Seq<EntryView>) -> nat
    decreases entries.len(),
{
    if entries.len() == 0 {
        0
    } else {
        selected_freeable(entries.drop_last()) + if entries.last().selected {
            entry_freeable(entries.last())
        } else {
            0nat
        }
    }
}

/// The consistency a deletion keeps: the bytes done are the bytes recorded
/// per closed category plus those freed in the current one, within what the
/// categories reached can free, and no path handed out for removal is denied.
pub open spec fn deletion_wf(v: DeletionView) -> bool {
    &&& v.entry <= v.targets.len()
    &&& v.per_category.len() == v.entry
    &&& forall|k: int| 0 <= k < v.per_category.len() ==> (#[trigger] v.per_category[k]).0 == v.targets[k].category.label_text()
    &&& v.total_bytes == targets_total(v.targets, v.targets.len() as int)
    &&& freeable_prefix(v.targets, v.targets.len() as int) <= u64::MAX
    &&& forall|k: int, j: int| 0 <= k < v.targets.len() && 0 <= j < v.targets[k].items.len() ==> !path_denied(#[trigger] v.targets[k].items[j].path)
    &&& v.done_bytes == records_total(v.per_category) + v.freed
    &&& records_total(v.per_category) <= freeable_prefix(v.targets, v.entry as int)
    &&& v.entry < v.targets.len() ==> {
        let t = v.targets[v.entry as int];
        &&& v.item <= t.items.len()
        &&& v.freed <= sum_sizes(t.items.take(v.item as int))
        &&& by_command(t) ==> v.item == 0 && v.freed == 0
    }
    &&& v.entry == v.targets.len() ==> v.freed == 0 && v.item == 0
    &&& v.awaiting ==> v.entry < v.targets.len() && (by_command(v.targets[v.entry as int]) || v.item < v.targets[v.entry as int].items.len())
}

proof fn lemma_freeable_prefix_mono(t: Seq<TargetView>, a: int, b: int)
    requires
        0 <= a <= b,
    ensures
        freeable_prefix(t, a) <= freeable_prefix(t, b),
    decreases b,
{
    if a < b {
        lemma_freeable_prefix_mono(t, a, b - 1);
    }
}

proof fn lemma_prefix_push(t: Seq<TargetView>, x: TargetView, k: int)
    requires
        0 <= k <= t.len(),
    ensures
        targets_total(t.push(x), k) == targets_total(t, k),
        freeable_prefix(t.push(x), k) == freeable_prefix(t, k),
    decreases k,
{
    if k > 0 {
        lemma_prefix_push(t, x, k - 1);
        assert(t.push(x)[k - 1] == t[k - 1]);
    }
}

/// When no target can free more than its total, what all can free is within
/// the total.
proof fn lemma_freeable_within_total(t: Seq<TargetView>, k: int)
    requires
        0 <= k <= t.len(),
        forall|i: int| 0 <= i < t.len() ==> freeable(#[trigger] t[i]) <= t[i].total_size,
    ensures
        freeable_prefix(t, k) <= targets_total(t, k),
    decreases k,
{
    if k > 0 {
        lemma_freeable_within_total(t, k - 1);
        assert(freeable(t[k - 1]) <= t[k - 1].total_size);
    }
}

proof fn lemma_selected_targets(entries: Seq<EntryView>)
    ensures
        ({
            let t = selected_targets(entries);
            &&& targets_total(t, t.len() as int) == selected_total(entries)
            &&& freeable_prefix(t, t.len() as int) == selected_freeable(entries)
            &&& forall|k: int, j: int| 0 <= k < t.len() && 0 <= j < t[k].items.len() ==> !path_denied(#[trigger] t[k].items[j].path)
        }),
    decreases entries.len(),
{
    if entries.len() > 0 {
        let rest = entries.drop_last();
        lemma_selected_targets(rest);
        let e = entries.last();
        if e.selected {
            let t0 = selected_targets(rest);
            let x = TargetView { category: e.category, items: allowed_items(e.items), total_size: e.total_size };
            lemma_prefix_push(t0, x, t0.len() as int);
            lemma_allowed_items(e.items);
            let t = t0.push(x);
            assert(t[t0.len() as int] == x);
            assert forall|k: int, j: int| 0 <= k < t.len() && 0 <= j < t[k].items.len() implies !path_denied(#[trigger] t[k].items[j].path) by {
                if k < t0.len() {
                    assert(t[k] == t0[k]);
                }
            }
        }
    }
}

/// Entries whose totals are the sums of their items give targets none of
/// which can free more than its total.
pub proof fn lemma_consistent_targets(entries: Seq<EntryView>)
    requires
        forall|k: int| 0 <= k < entries.len() ==> entry_wf(#[trigger] entries[k]),
    ensures
        forall|k: int| 0 <= k < selected_targets(entries).len() ==> freeable(#[trigger] selected_targets(entries)[k])
            <= selected_targets(entries)[k].total_size,
    decreases entries.len(),
{
    if entries.len() > 0 {
        let rest = entries.drop_last();
        assert forall|k: int| 0 <= k < rest.len() implies entry_wf(#[trigger] rest[k]) by {
            assert(rest[k] == entries[k]);
        }
        lemma_consistent_targets(rest);
        let e = entries.last();
        assert(entry_wf(entries[entries.len() - 1]));
        if e.selected {
            let t0 = selected_targets(rest);
            lemma_allowed_items(e.items);
            let t = selected_targets(entries);
            assert forall|k: int| 0 <= k < t.len() implies freeable(#[trigger] t[k]) <= t[k].total_size by {
                if k < t0.len() {
                    assert(t[k] == t0[k]);
                }
            }
        }
    }
}

proof fn lemma_sum_sizes_take(items: Seq<ItemView>, k: int)
    requires
        0 <= k < items.len(),
    ensures
        sum_sizes(items.take(k + 1)) == sum_sizes(items.take(k)) + items[k].size,
{
    assert(items.take(k + 1).drop_last() =~= items.take(k));
}

/// A copy of an item.
fn copy_item(i: &Item) -> (r: Item)
    ensures
        r@ == i@,
{
    Item { path: i.path.clone(), size: i.size }
}

impl Deletion {
    /// Plans the deletion of the selected entries: each selected category in
    /// order, with the items of it that are not denied, and the sum of the
    /// selected totals as the total to report against.
    pub fn new(entries: &Vec<CategoryEntry>, dry_run: bool) -> (r: Self)
        requires
            selected_total(entries@.map_values(|e: CategoryEntry| e@)) <= u64::MAX,
            selected_freeable(entries@.map_values(|e: CategoryEntry| e@)) <= u64::MAX,
        ensures
            r@ == (DeletionView {
                targets: selected_targets(entries@.map_values(|e: CategoryEntry| e@)),
                dry_run,
                total_bytes: selected_total(entries@.map_values(|e: CategoryEntry| e@)) as u64,
                done_bytes: 0,
                per_category: Seq::empty(),
                entry: 0,
                item: 0,
                freed: 0,
                awaiting: false,
            }),
            deletion_wf(r@),
    {
        let ghost all = entries@.map_values(|e: CategoryEntry| e@);
        let mut targets: Vec<Target> = Vec::new();
        let mut total: u64 = 0;
        let mut i: usize = 0;
        while i < entries.len()
            invariant
                i <= entries@.len(),
                all == entries@.map_values(|e: CategoryEntry| e@),
                selected_total(all) <= u64::MAX,
                targets@.map_values(|t: Target| t@) == selected_targets(all.take(i as int)),
                total == selected_total(all.take(i as int)),
            decreases entries@.len() - i,
        {
            let e = &entries[i];
            proof {
                assert(all.take(i + 1).drop_last() =~= all.take(i as int));
                assert(all.take(i + 1).last() == e@);
                lemma_selected_total_prefix(all, i + 1);
            }
            if e.selected {
                let allowed = assert_deletable(e.items.as_slice());
                let mut items: Vec<Item> = Vec::new();
                let mut j: usize = 0;
                while j < allowed.len()
                    invariant
                        j <= allowed@.len(),
                        item_views(items@) == allowed@.map_values(|x: &Item| x@).take(j as int),
                    decreases allowed@.len() - j,
                {
                    let ghost prev = items@;
                    let c = copy_item(allowed[j]);
                    items.push(c);
                    assert(item_views(items@) =~= item_views(prev).push(c@));
                    assert(allowed@.map_values(|x: &Item| x@).take(j + 1) =~= allowed@.map_values(|x: &Item| x@).take(j as int).push(c@));
                    j = j + 1;
                }
                assert(allowed@.map_values(|x: &Item| x@).take(allowed@.len() as int) =~= allowed@.map_values(|x: &Item| x@));
                let ghost prev = targets@;
                targets.push(Target { category: e.category, items, total_size: e.total_size });
                assert(targets@.map_values(|t: Target| t@) =~= prev.map_values(|t: Target| t@).push(targets@.last()@));
                total = total + e.total_size;
            }
            i = i + 1;
        }
        proof {
            assert(all.take(entries@.len() as int) =~= all);
            lemma_selected_targets(all);
        }
        let r = Deletion {
            targets,
            dry_run,
            total_bytes: total,
            done_bytes: 0,
            per_category: Vec::new(),
            entry: 0,
            item: 0,
            freed: 0,
            awaiting: false,
        };
        proof {
            assert(record_views(r.per_category@) =~= Seq::<(Seq<char>, u64)>::empty());
            let v = r@;
            if 0 < v.targets.len() {
                assert(v.targets[0].items.take(0) =~= Seq::<ItemView>::empty());
            }
        }
        r
    }

    /// Hands out the next step: records each item-by-item category whose
    /// items are all handled, then asks for the next removal (or the
    /// simulator command; nothing in a dry run), or for the finish.
    pub fn next_action(&mut self) -> (a: DeleteAction)
        requires
            deletion_wf(old(self)@),
            !old(self)@.awaiting,
        ensures
            deletion_wf(final(self)@),
            ({
                let s = settle(old(self)@);
                if s.entry >= s.targets.len() {
                    &&& a is Finish
                    &&& final(self)@ == s
                } else {
                    &&& final(self)@ == (DeletionView { awaiting: true, ..s })
                    &&& a matches DeleteAction::Remove { path } ==> !path_denied(path@)
                    &&& if s.dry_run {
                        a is DryRun
                    } else if by_command(s.targets[s.entry as int]) {
                        a is RunSimctl
                    } else {
                        a matches DeleteAction::Remove { path } && path@ == s.targets[s.entry as int].items[s.item as int].path
                    }
                }
            }),
    {
        let ghost start = self@;
        while self.entry < self.targets.len()
            && !self.targets[self.entry].category.deletes_via_command()
            && self.item >= self.targets[self.entry].items.len()
            invariant
                deletion_wf(self@),
                !self@.awaiting,
                settle(self@) == settle(start),
                self@.targets == start.targets,
                self@.dry_run == start.dry_run,
            decreases self@.targets.len() - self@.entry,
        {
            let ghost before = self@;
            let label = self.targets[self.entry].category.label();
            let ghost prev = self.per_category@;
            self.per_category.push((label, self.freed));
            proof {
                let t = before.targets[before.entry as int];
                assert(record_views(self.per_category@) =~= record_views(prev).push((label@, before.freed)));
                assert(record_views(self.per_category@).drop_last() =~= record_views(prev));
                lemma_sum_sizes_prefix_le(t.items, before.item as int);
                assert(t.items.take(before.item as int) =~= t.items);
            }
            self.entry = self.entry + 1;
            self.item = 0;
            self.freed = 0;
            proof {
                if self.entry < self.targets.len() {
                    assert(self@.targets[self@.entry as int].items.take(0) =~= Seq::<ItemView>::empty());
                }
                assert(self@ == (DeletionView {
                    per_category: before.per_category.push((before.targets[before.entry as int].category.label_text(), before.freed)),
                    entry: before.entry + 1,
                    item: 0,
                    freed: 0,
                    ..before
                }));
            }
        }
        if self.entry >= self.targets.len() {
            return DeleteAction::Finish;
        }
        self.awaiting = true;
        if self.dry_run {
            DeleteAction::DryRun
        } else if self.targets[self.entry].category.deletes_via_command() {
            DeleteAction::RunSimctl
        } else {
            let path = self.targets[self.entry].items[self.item].path.clone();
            assert(!path_denied(self@.targets[self.entry as int].items[self.item as int].path));
            DeleteAction::Remove { path }
        }
    }

    /// Takes the outcome of the step handed out (`true` in a dry run): a
    /// success counts the bytes and is reported; a failure (permission
    /// denied, already gone) is skipped. The simulator command closes its
    /// category either way.
    pub fn complete(&mut self, ok: bool) -> (r: Option<Progress>)
        requires
            deletion_wf(old(self)@),
            old(self)@.awaiting,
        ensures
            deletion_wf(final(self)@),
            (final(self)@, match r { Some(p) => Some(p@), None => None }) == after_outcome(old(self)@, ok),
    {
        let ghost before = self@;
        let e = self.entry;
        let n_targets = self.targets.len();
        assert(e < n_targets) by {
            assert(before.targets.len() == self.targets@.len());
        }
        proof {
            lemma_freeable_prefix_mono(before.targets, e + 1, before.targets.len() as int);
        }
        if self.targets[e].category.deletes_via_command() {
            let size = self.targets[e].total_size;
            let label = self.targets[e].category.label();
            let freed: u64 = if ok { size } else { 0 };
            if ok {
                self.done_bytes = self.done_bytes + size;
            }
            let ghost prev = self.per_category@;
            self.per_category.push((label, freed));
            proof {
                assert(record_views(self.per_category@) =~= record_views(prev).push((label@, freed)));
                assert(record_views(self.per_category@).drop_last() =~= record_views(prev));
            }
            self.entry = e + 1;
            self.item = 0;
            self.freed = 0;
            self.awaiting = false;
            proof {
                if self.entry < self.targets.len() {
                    assert(self@.targets[self@.entry as int].items.take(0) =~= Seq::<ItemView>::empty());
                }
            }
            if ok {
                let mut path = String::from_str(label);
                path.append(" (via xcrun simctl)");
                Some(Progress::Item { path, done_bytes: self.done_bytes, total_bytes: self.total_bytes })
            } else {
                None
            }
        } else {
            let k = self.item;
            let n_items = self.targets[e].items.len();
            assert(k < n_items) by {
                assert(before.targets[e as int] == self.targets@[e as int]@);
            }
            proof {
                let t = before.targets[e as int];
                lemma_sum_sizes_take(t.items, k as int);
                lemma_sum_sizes_prefix_le(t.items, k + 1);
            }
            self.item = k + 1;
            self.awaiting = false;
            if ok {
                let size = self.targets[e].items[k].size;
                self.done_bytes = self.done_bytes + size;
                self.freed = self.freed + size;
                let path = self.targets[e].items[k].path.clone();
                Some(Progress::Item { path, done_bytes: self.done_bytes, total_bytes: self.total_bytes })
            } else {
                None
            }
        }
    }

    /// The final report, once [`Deletion::next_action`] has asked for the
    /// finish: the bytes freed per category and in all.
    pub fn finish(self) -> (r: Progress)
        requires
            deletion_wf(self@),
            self@.entry >= self@.targets.len(),
        ensures
            r@ == (ProgressView::Done { per_category: self@.per_category, total_freed: self@.done_bytes }),
            self@.done_bytes == records_total(self@.per_category),
            self@.per_category.len() == self@.targets.len(),
            forall|k: int| 0 <= k < self@.targets.len() ==> self@.per_category[k].0 == self@.targets[k].category.label_text(),
    {
        Progress::Done { per_category: self.per_category, total_freed: self.done_bytes }
    }
}

/// A deletion of consistent entries never reports more bytes done than its
/// total.
pub proof fn lemma_progress_within_total(v: DeletionView)
    requires
        deletion_wf(v),
        forall|k: int| 0 <= k < v.targets.len() ==> freeable(#[trigger] v.targets[k]) <= v.targets[k].total_size,
    ensures
        v.done_bytes <= v.total_bytes,
{
    lemma_freeable_within_total(v.targets, v.targets.len() as int);
    if v.entry < v.targets.len() {
        let t = v.targets[v.entry as int];
        lemma_sum_sizes_prefix_le(t.items, v.item as int);
        lemma_freeable_prefix_mono(v.targets, (v.entry + 1) as int, v.targets.len() as int);
    } else {
        lemma_freeable_prefix_mono(v.targets, v.entry as int, v.targets.len() as int);
    }
}

/// The paths a target asks to have removed: its items', in order, unless the
/// simulator command cleans it.
pub open spec fn target_paths(t: TargetView) -> Seq<Seq<char>> {
    if by_command(t) {
        Seq::empty()
    } else {
        t.items.map_values(|i: ItemView| i.path)
    }
}

/// The paths of the targets from the `k`-th on, in order.
pub open spec fn paths_from(t: Seq<TargetView>, k: int) -> Seq<Seq<char>>
    decreases t.len() - k,
{
    if 0 <= k < t.len() {
        target_paths(t[k]) + paths_from(t, k + 1)
    } else {
        Seq::empty()
    }
}

/// What a target records when everything in it is deleted: its label, and
/// its total when the simulator command cleans it, otherwise the sum of its
/// deletable items' sizes.
pub open spec fn full_record(t: TargetView) -> (Seq<char>, u64) {
    (
        t.category.label_text(),
        (if by_command(t) {
            t.total_size as nat
        } else {
            sum_sizes(t.items)
        }) as u64,
    )
}

/// The full records of the targets from the `k`-th on, in order.
pub open spec fn records_from(t: Seq<TargetView>, k: int) -> Seq<(Seq<char>, u64)>
    decreases t.len() - k,
{
    if 0 <= k < t.len() {
        seq![full_record(t[k])] + records_from(t, k + 1)
    } else {
        Seq::empty()
    }
}

/// The steps the targets from the `k`-th on take: one per item, one for a
/// command-cleaned category.
pub open spec fn steps_from(t: Seq<TargetView>, k: int) -> nat
    decreases t.len() - k,
{
    if 0 <= k < t.len() {
        (if by_command(t[k]) {
            1
        } else {
            t[k].items.len()
        }) + steps_from(t, k + 1)
    } else {
        0
    }
}

/// A deletion driven as `next_action` and `complete` drive it, with every
/// step succeeding, for at most `fuel` steps: the state it reaches and the
/// items it steps through, in order (the paths handed out for removal when
/// it is not a dry run).
pub open spec fn run_succeeding(v: DeletionView, fuel: nat) -> (DeletionView, Seq<Seq<char>>)
    decreases fuel,
{
    let s = settle(v);
    if fuel == 0 || s.entry >= s.targets.len() {
        (s, Seq::empty())
    } else {
        let t = s.targets[s.entry as int];
        let handed = if by_command(t) {
            Seq::empty()
        } else {
            seq![t.items[s.item as int].path]
        };
        let r = run_succeeding(after_outcome(DeletionView { awaiting: true, ..s }, true).0, (fuel - 1) as nat);
        (r.0, handed + r.1)
    }
}

/// The paths still to step through from `v`.
spec fn pending_paths(v: DeletionView) -> Seq<Seq<char>> {
    if v.entry < v.targets.len() {
        let t = v.targets[v.entry as int];
        (if by_command(t) {
            Seq::empty()
        } else {
            t.items.skip(v.item as int).map_values(|i: ItemView| i.path)
        }) + paths_from(v.targets, (v.entry + 1) as int)
    } else {
        Seq::empty()
    }
}

/// The records a deletion ends with from `v` when every step succeeds.
spec fn pending_records(v: DeletionView) -> Seq<(Seq<char>, u64)> {
    if v.entry < v.targets.len() {
        let t = v.targets[v.entry as int];
        v.per_category.push(
            (
                t.category.label_text(),
                (if by_command(t) {
                    t.total_size as nat
                } else {
                    (v.freed + sum_sizes(t.items.skip(v.item as int))) as nat
                }) as u64,
            ),
        ) + records_from(v.targets, (v.entry + 1) as int)
    } else {
        v.per_category
    }
}

/// The steps still to take from `v`.
spec fn steps_left(v: DeletionView) -> nat {
    if v.entry < v.targets.len() {
        let t = v.targets[v.entry as int];
        (if by_command(t) {
            1
        } else {
            (t.items.len() - v.item) as nat
        }) + steps_from(v.targets, (v.entry + 1) as int)
    } else {
        0
    }
}

proof fn lemma_sum_sizes_push(s: Seq<ItemView>, x: ItemView)
    ensures
        sum_sizes(s.push(x)) == sum_sizes(s) + x.size,
{
    assert(s.push(x).drop_last() =~= s);
}

/// A prefix and the rest sum to the whole.
proof fn lemma_sum_sizes_split(s: Seq<ItemView>, i: int)
    requires
        0 <= i <= s.len(),
    ensures
        sum_sizes(s.take(i)) + sum_sizes(s.skip(i)) == sum_sizes(s),
    decreases s.len(),
{
    if i == s.len() {
        assert(s.take(i) =~= s);
        assert(s.skip(i) =~= Seq::<ItemView>::empty());
    } else {
        let d = s.drop_last();
        lemma_sum_sizes_split(d, i);
        assert(s.take(i) =~= d.take(i));
        assert(s.skip(i) =~= d.skip(i).push(s.last()));
        lemma_sum_sizes_push(d.skip(i), s.last());
    }
}

proof fn lemma_sum_sizes_skip(s: Seq<ItemView>, i: int)
    requires
        0 <= i < s.len(),
    ensures
        sum_sizes(s.skip(i)) == s[i].size + sum_sizes(s.skip(i + 1)),
{
    lemma_sum_sizes_split(s, i);
    lemma_sum_sizes_split(s, i + 1);
    lemma_sum_sizes_take(s, i);
}

/// Closing categories keeps the deletion consistent and changes neither what
/// is still to come nor what it ends with.
proof fn lemma_settle_run(v: DeletionView)
    requires
        deletion_wf(v),
        !v.awaiting,
    ensures
        deletion_wf(settle(v)),
        !settle(v).awaiting,
        settle(v).targets == v.targets,
        settle(v).entry < settle(v).targets.len() ==> by_command(settle(v).targets[settle(v).entry as int])
            || settle(v).item < settle(v).targets[settle(v).entry as int].items.len(),
        pending_paths(settle(v)) == pending_paths(v),
        pending_records(settle(v)) == pending_records(v),
        steps_left(settle(v)) == steps_left(v),
    decreases v.targets.len() - v.entry,
{
    if v.entry < v.targets.len() && !by_command(v.targets[v.entry as int]) && v.item
        >= v.targets[v.entry as int].items.len() {
        let e = v.entry as int;
        let t = v.targets[e];
        let rec = (t.category.label_text(), v.freed);
        let w = DeletionView {
            per_category: v.per_category.push(rec),
            entry: v.entry + 1,
            item: 0,
            freed: 0,
            ..v
        };
        assert(t.items.take(v.item as int) =~= t.items);
        assert(w.per_category.drop_last() =~= v.per_category);
        assert(t.items.skip(v.item as int) =~= Seq::<ItemView>::empty());
        assert(t.items.skip(v.item as int).map_values(|i: ItemView| i.path) =~= Seq::<Seq<char>>::empty());
        if w.entry < w.targets.len() {
            let t2 = w.targets[w.entry as int];
            assert(t2.items.take(0) =~= Seq::<ItemView>::empty());
            assert(t2.items.skip(0) =~= t2.items);
            assert(pending_records(w) =~= pending_records(v));
            assert(pending_paths(w) =~= pending_paths(v));
        } else {
            assert(pending_records(w) =~= pending_records(v));
            assert(pending_paths(w) =~= pending_paths(v));
        }
        assert(deletion_wf(w));
        lemma_settle_run(w);
    }
}

/// One successful step keeps the deletion consistent, hands out the current
/// item (if any), and leaves the end result unchanged.
proof fn lemma_outcome_run(s: DeletionView)
    requires
        deletion_wf(s),
        !s.awaiting,
        s.entry < s.targets.len(),
        by_command(s.targets[s.entry as int]) || s.item < s.targets[s.entry as int].items.len(),
    ensures
        ({
            let n = after_outcome(DeletionView { awaiting: true, ..s }, true).0;
            let t = s.targets[s.entry as int];
            &&& deletion_wf(n)
            &&& !n.awaiting
            &&& n.targets == s.targets
            &&& pending_paths(s) == (if by_command(t) {
                Seq::empty()
            } else {
                seq![t.items[s.item as int].path]
            }) + pending_paths(n)
            &&& pending_records(n) == pending_records(s)
            &&& steps_left(n) + 1 == steps_left(s)
        }),
{
    let e = s.entry as int;
    let t = s.targets[e];
    let a = DeletionView { awaiting: true, ..s };
    let n = after_outcome(a, true).0;
    lemma_freeable_prefix_mono(s.targets, e + 1, s.targets.len() as int);
    if by_command(t) {
        assert(n.per_category.drop_last() =~= s.per_category);
        if n.entry < n.targets.len() {
            let t2 = n.targets[n.entry as int];
            assert(t2.items.take(0) =~= Seq::<ItemView>::empty());
            assert(t2.items.skip(0) =~= t2.items);
            assert(pending_records(n) =~= pending_records(s));
            assert(pending_paths(n) =~= pending_paths(s));
        } else {
            assert(pending_records(n) =~= pending_records(s));
            assert(pending_paths(n) =~= pending_paths(s));
        }
        assert(deletion_wf(n));
    } else {
        let k = s.item as int;
        lemma_sum_sizes_take(t.items, k);
        lemma_sum_sizes_prefix_le(t.items, k + 1);
        lemma_sum_sizes_skip(t.items, k);
        assert(t.items.skip(k).map_values(|i: ItemView| i.path) =~= seq![t.items[k].path] + t.items.skip(k + 1).map_values(
            |i: ItemView| i.path,
        ));
        assert(pending_records(n) =~= pending_records(s));
        assert(pending_paths(s) =~= seq![t.items[k].path] + pending_paths(n));
        assert(deletion_wf(n));
    }
}

proof fn lemma_run(v: DeletionView, fuel: nat)
    requires
        deletion_wf(v),
        !v.awaiting,
        fuel > steps_left(v),
    ensures
        ({
            let r = run_succeeding(v, fuel);
            &&& r.0.entry == r.0.targets.len()
            &&& r.0.targets == v.targets
            &&& deletion_wf(r.0)
            &&& r.0.per_category == pending_records(v)
            &&& r.1 == pending_paths(v)
        }),
    decreases fuel,
{
    lemma_settle_run(v);
    let s = settle(v);
    if s.entry < s.targets.len() {
        lemma_outcome_run(s);
        let n = after_outcome(DeletionView { awaiting: true, ..s }, true).0;
        lemma_run(n, (fuel - 1) as nat);
        let r = run_succeeding(n, (fuel - 1) as nat);
        let t = s.targets[s.entry as int];
        let handed = if by_command(t) {
            Seq::empty()
        } else {
            seq![t.items[s.item as int].path]
        };
        assert(run_succeeding(v, fuel) == (r.0, handed + r.1));
    }
}

/// Deleting with every step succeeding, from the start, steps through every
/// deletable item of every selected item-by-item category exactly once and
/// in order (each is handed out for removal once when it is not a dry run),
/// and ends having closed every category, each recorded with its label and
/// with the sum of its deletable items' sizes (its total when the simulator
/// command cleans it), and with the bytes done equal to the recorded bytes.
pub proof fn lemma_full_run_frees_everything(v: DeletionView)
    requires
        deletion_wf(v),
        !v.awaiting,
        v.entry == 0,
        v.item == 0,
        v.freed == 0,
    ensures
        ({
            let r = run_succeeding(v, steps_from(v.targets, 0) + 1);
            &&& r.0.entry == v.targets.len()
            &&& r.0.per_category == records_from(v.targets, 0)
            &&& r.1 == paths_from(v.targets, 0)
            &&& r.0.done_bytes == records_total(r.0.per_category)
        }),
{
    if v.targets.len() > 0 {
        let t = v.targets[0];
        assert(t.items.skip(0) =~= t.items);
        assert(v.per_category =~= Seq::<(Seq<char>, u64)>::empty());
        assert(pending_records(v) =~= records_from(v.targets, 0));
        assert(pending_paths(v) =~= paths_from(v.targets, 0));
    } else {
        assert(v.per_category =~= Seq::<(Seq<char>, u64)>::empty());
    }
    lemma_run(v, steps_from(v.targets, 0) + 1);
}

/// One step's outcome: a removal that worked adds the item's size to the
/// bytes done and to its category, moves to the next item, and reports the
/// item's path with the new count against the unchanged total; one that
/// failed changes no count and reports nothing. The simulator command that
/// worked adds the category's total and reports the category, one that failed
/// records 0 for it; either way the category is closed.
pub proof fn lemma_step_outcome(v: DeletionView)
    requires
        deletion_wf(v),
        v.awaiting,
    ensures
        ({
            let t = v.targets[v.entry as int];
            let (good, report) = after_outcome(v, true);
            let (bad, none) = after_outcome(v, false);
            &&& none is None
            &&& bad.done_bytes == v.done_bytes
            &&& good.total_bytes == v.total_bytes && bad.total_bytes == v.total_bytes
            &&& !good.awaiting && !bad.awaiting
            &&& if by_command(t) {
                &&& good.done_bytes == v.done_bytes + t.total_size
                &&& good.per_category == v.per_category.push((t.category.label_text(), t.total_size))
                &&& bad.per_category == v.per_category.push((t.category.label_text(), 0u64))
                &&& good.entry == v.entry + 1 && bad.entry == v.entry + 1
                &&& report == Some(ProgressView::Item {
                    path: t.category.label_text() + " (via xcrun simctl)"@,
                    done_bytes: good.done_bytes,
                    total_bytes: v.total_bytes,
                })
            } else {
                let it = t.items[v.item as int];
                &&& good.done_bytes == v.done_bytes + it.size
                &&& good.freed == v.freed + it.size
                &&& bad.freed == v.freed
                &&& good.item == v.item + 1 && bad.item == v.item + 1
                &&& good.entry == v.entry && bad.entry == v.entry
                &&& good.per_category == v.per_category && bad.per_category == v.per_category
                &&& report == Some(ProgressView::Item { path: it.path, done_bytes: good.done_bytes, total_bytes: v.total_bytes })
            }
        }),
{
    let e = v.entry as int;
    let t = v.targets[e];
    lemma_freeable_prefix_mono(v.targets, e + 1, v.targets.len() as int);
    if !by_command(t) {
        lemma_sum_sizes_take(t.items, v.item as int);
        lemma_sum_sizes_prefix_le(t.items, (v.item + 1) as int);
    }
}

/// Recorded bytes add up: no records count 0, and one more record adds its
/// bytes.
pub proof fn lemma_records_add(r: Seq<(Seq<char>, u64)>, x: (Seq<char>, u64))
    ensures
        records_total(Seq::empty()) == 0,
        records_total(r.push(x)) == records_total(r) + x.1,
{
    assert(r.push(x).drop_last() =~= r);
}

/// Which categories a deletion takes: none of no entries, and with one more
/// entry at the end, the same and then that entry, with its deletable items,
/// exactly when it is selected; the total counted against is the sum of the
/// selected entries' totals.
pub proof fn lemma_selected_targets_step(entries: Seq<EntryView>, x: EntryView)
    ensures
        selected_targets(Seq::empty()) == Seq::<TargetView>::empty(),
        selected_total(Seq::empty()) == 0,
        selected_targets(entries.push(x)) == if x.selected {
            selected_targets(entries).push(
                TargetView { category: x.category, items: allowed_items(x.items), total_size: x.total_size },
            )
        } else {
            selected_targets(entries)
        },
        selected_total(entries.push(x)) == selected_total(entries) + if x.selected {
            x.total_size as nat
        } else {
            0nat
        },
{
    assert(entries.push(x).drop_last() =~= entries);
}

/// Whether a deletion of `entries` can count its bytes in a `u64`: the
/// selected totals, and what the selected entries can free, each fit.
pub fn deletion_fits(entries: &Vec<CategoryEntry>) -> (r: bool)
    ensures
        r == (selected_total(entries@.map_values(|e: CategoryEntry| e@)) <= u64::MAX
            && selected_freeable(entries@.map_values(|e: CategoryEntry| e@)) <= u64::MAX),
{
    let ghost all = entries@.map_values(|e: CategoryEntry| e@);
    let mut total: u64 = 0;
    let mut free: u64 = 0;
    let mut i: usize = 0;
    while i < entries.len()
        invariant
            i <= entries@.len(),
            all == entries@.map_values(|e: CategoryEntry| e@),
            total == selected_total(all.take(i as int)),
            free == selected_freeable(all.take(i as int)),
        decreases entries@.len() - i,
    {
        let e = &entries[i];
        proof {
            assert(all.take(i + 1).drop_last() =~= all.take(i as int));
            assert(all.take(i + 1).last() == e@);
            lemma_selected_total_prefix(all, i + 1);
        }
        if e.selected {
            let f = if e.category.deletes_via_command() {
                e.total_size
            } else {
                match checked_deletable_total(e.items.as_slice()) {
                    Some(f) => f,
                    None => {
                        return false;
                    },
                }
            };
            match total.checked_add(e.total_size) {
                Some(t) => total = t,
                None => {
                    return false;
                },
            }
            match free.checked_add(f) {
                Some(t) => free = t,
                None => {
                    return false;
                },
            }
        }
        i = i + 1;
    }
    assert(all.take(entries@.len() as int) =~= all);
    true
}

proof fn lemma_selected_total_prefix(entries: Seq<EntryView>, k: int)
    requires
        0 <= k <= entries.len(),
    ensures
        selected_total(entries.take(k)) <= selected_total(entries),
        selected_freeable(entries.take(k)) <= selected_freeable(entries),
    decreases entries.len() - k,
{
    if k < entries.len() {
        lemma_selected_total_prefix(entries, k + 1);
        assert(entries.take(k + 1).drop_last() =~= entries.take(k));
    } else {
        assert(entries.take(k) =~= entries);
    }
}

} // verus!
