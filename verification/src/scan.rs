//! Junk categories, the deletable items found in them, and the rules that
//! decide what may be listed and deleted.
use vstd::prelude::*;
use crate::text::{decimal, has_substring, str_contains, str_eq, u64_to_decimal, chars_of};

verus! {

/// Path substrings that are never eligible for deletion, regardless of
/// category: a safety floor independent of the category scan logic.
pub open spec fn denylist() -> Seq<Seq<char>> {
    seq![
        "Mobile Documents"@,
        "Keychains"@,
        "com.apple.bird"@,
        "com.apple.cloudd"@,
        "com.apple.security"@,
        "com.apple.icloud"@,
    ]
}

/// A path is denied when it holds one of the denylisted substrings.
pub open spec fn path_denied(path: Seq<char>) -> bool {
    exists|i: int| 0 <= i < denylist().len() && has_substring(path, #[trigger] denylist()[i])
}

/// Whether `path` holds one of the denylisted substrings (iCloud documents,
/// keychains, iCloud and security daemons); such a path is never deletable.
pub fn is_denied(path: &str) -> (r: bool)
    ensures
        r == path_denied(path@),
{
    let r = str_contains(path, "Mobile Documents") || str_contains(path, "Keychains")
        || str_contains(path, "com.apple.bird") || str_contains(path, "com.apple.cloudd")
        || str_contains(path, "com.apple.security") || str_contains(path, "com.apple.icloud");
    proof {
        let d = denylist();
        if r {
            if has_substring(path@, "Mobile Documents"@) {
                assert(has_substring(path@, d[0]));
            } else if has_substring(path@, "Keychains"@) {
                assert(has_substring(path@, d[1]));
            } else if has_substring(path@, "com.apple.bird"@) {
                assert(has_substring(path@, d[2]));
            } else if has_substring(path@, "com.apple.cloudd"@) {
                assert(has_substring(path@, d[3]));
            } else if has_substring(path@, "com.apple.security"@) {
                assert(has_substring(path@, d[4]));
            } else {
                assert(has_substring(path@, d[5]));
            }
        } else {
            assert forall|i: int| 0 <= i < d.len() implies !has_substring(path@, #[trigger] d[i]) by {
                if i == 0 {} else if i == 1 {} else if i == 2 {} else if i == 3 {} else if i == 4 {} else {}
            }
        }
    }
    r
}

/// Localization directories that are always kept, even inside an in-scope
/// app bundle.
pub open spec fn kept_locale(name: Seq<char>) -> bool {
    name == "en.lproj"@ || name == "Base.lproj"@
}

/// Exactly "en.lproj" and "Base.lproj" are kept; every other name with the
/// extension "lproj" is a localization to strip, and a name without that
/// extension never is.
pub proof fn lemma_locale_rule(name: Seq<char>)
    ensures
        kept_locale(name) <==> (name == "en.lproj"@ || name == "Base.lproj"@),
        (file_extension(name) == Some("lproj"@) && !kept_locale(name)) <==> (file_extension(name) == Some(
            "lproj"@,
        ) && name != "en.lproj"@ && name != "Base.lproj"@),
{
}

/// Whether a localization directory named `dir_name` is always kept.
pub fn is_kept_locale(dir_name: &str) -> (r: bool)
    ensures
        r == kept_locale(dir_name@),
{
    str_eq(dir_name, "en.lproj") || str_eq(dir_name, "Base.lproj")
}

/// The position of the last '.' in `name`, or -1 when it has none.
pub open spec fn last_dot(name: Seq<char>) -> int
    decreases name.len(),
{
    if name.len() == 0 {
        -1
    } else if name.last() == '.' {
        name.len() - 1
    } else {
        last_dot(name.drop_last())
    }
}

/// The extension of a file name, as `Path::extension` has it: the part after
/// the final '.', or none when there is no '.', when the only '.' starts the
/// name, or for "..".
pub open spec fn file_extension(name: Seq<char>) -> Option<Seq<char>> {
    if name == ".."@ || last_dot(name) <= 0 {
        None
    } else {
        Some(name.subrange(last_dot(name) + 1, name.len() as int))
    }
}

proof fn lemma_last_dot_at(name: Seq<char>, at: int)
    requires
        -1 <= at < name.len(),
        at >= 0 ==> name[at] == '.',
        forall|j: int| at < j < name.len() ==> name[j] != '.',
    ensures
        last_dot(name) == at,
    decreases name.len(),
{
    if name.len() > 0 && at < name.len() - 1 {
        lemma_last_dot_at(name.drop_last(), at);
    }
}

/// Whether the file name `name` has the extension `ext`.
pub fn has_extension(name: &str, ext: &str) -> (r: bool)
    ensures
        r == (file_extension(name@) == Some(ext@)),
{
    if str_eq(name, "..") {
        return false;
    }
    let c = chars_of(name);
    let n = c.len();
    let mut i: usize = n;
    while i > 0 && c[i - 1] != '.'
        invariant
            i <= n,
            n == c@.len(),
            forall|j: int| i <= j < n ==> c@[j] != '.',
        decreases i,
    {
        i = i - 1;
    }
    proof {
        lemma_last_dot_at(c@, i - 1);
    }
    if i <= 1 {
        return false;
    }
    let tail = name.substring_char(i, n);
    let r = str_eq(tail, ext);
    assert(r ==> Some(tail@) == Some(ext@));
    r
}

/// Whether a directory entry named `name` is an application bundle.
pub fn is_app_bundle(name: &str) -> (r: bool)
    ensures
        r == (file_extension(name@) == Some("app"@)),
{
    has_extension(name, "app")
}

/// Whether a directory named `name` inside an app's resources is a
/// localization to strip: a `.lproj` directory that is not always kept.
pub fn is_strippable_locale(name: &str) -> (r: bool)
    ensures
        r == (file_extension(name@) == Some("lproj"@) && !kept_locale(name@)),
{
    has_extension(name, "lproj") && !is_kept_locale(name)
}

#[derive(Debug, Clone, Copy, PartialEq, Eq, Hash, Structural)]
pub enum Category {
    UserCache,
    Logs,
    Trash,
    XcodeJunk,
    Localization,
    IosBackups,
    XcodeSimulators,
}

/// The labels shown for the categories, and only the simulators are cleaned
/// by a command.
pub proof fn lemma_category_labels()
    ensures
        Category::UserCache.label_text() == "User Cache"@,
        Category::Logs.label_text() == "Logs"@,
        Category::Trash.label_text() == "Trash"@,
        Category::XcodeJunk.label_text() == "Xcode Derived Data"@,
        Category::Localization.label_text() == "Localization files"@,
        Category::IosBackups.label_text() == "iOS Device Backups (stale)"@,
        Category::XcodeSimulators.label_text() == "Xcode Simulators"@,
{
}

impl Category {
    pub open spec fn label_text(self) -> Seq<char> {
        match self {
            Category::UserCache => "User Cache"@,
            Category::Logs => "Logs"@,
            Category::Trash => "Trash"@,
            Category::XcodeJunk => "Xcode Derived Data"@,
            Category::Localization => "Localization files"@,
            Category::IosBackups => "iOS Device Backups (stale)"@,
            Category::XcodeSimulators => "Xcode Simulators"@,
        }
    }

    /// The name shown for the category.
    pub fn label(self) -> (r: &'static str)
        ensures
            r@ == self.label_text(),
    {
        match self {
            Category::UserCache => "User Cache",
            Category::Logs => "Logs",
            Category::Trash => "Trash",
            Category::XcodeJunk => "Xcode Derived Data",
            Category::Localization => "Localization files",
            Category::IosBackups => "iOS Device Backups (stale)",
            Category::XcodeSimulators => "Xcode Simulators",
        }
    }

    /// Categories whose deletion isn't a per-item filesystem remove: they are
    /// cleaned by a single external command instead.
    pub fn deletes_via_command(self) -> (r: bool)
        ensures
            r == (self == Category::XcodeSimulators),
    {
        match self {
            Category::XcodeSimulators => true,
            _ => false,
        }
    }
}

/// A single deletable unit within a category: one top-level directory or
/// file, with its size in bytes. Categories delete at this granularity.
#[derive(Debug, Clone)]
pub struct Item {
    pub path: String,
    pub size: u64,
}

pub struct ItemView {
    pub path: Seq<char>,
    pub size: u64,
}

impl View for Item {
    type V = ItemView;

    open spec fn view(&self) -> ItemView {
        ItemView { path: self.path@, size: self.size }
    }
}

/// The views of a sequence of items.
pub open spec fn item_views(items: Seq<Item>) -> Seq<ItemView> {
    items.map_values(|i: Item| i@)
}

/// The sum of the sizes of `items`.
pub open spec fn sum_sizes(items: Seq<ItemView>) -> nat
    decreases items.len(),
{
    if items.len() == 0 {
        0
    } else {
        sum_sizes(items.drop_last()) + items.last().size as nat
    }
}

/// The items whose paths are not denied, in their order.
pub open spec fn allowed_items(items: Seq<ItemView>) -> Seq<ItemView>
    decreases items.len(),
{
    if items.len() == 0 {
        Seq::empty()
    } else if path_denied(items.last().path) {
        allowed_items(items.drop_last())
    } else {
        allowed_items(items.drop_last()).push(items.last())
    }
}

/// No item that may be deleted has a denied path, and together they are no
/// larger than all the items.
pub proof fn lemma_allowed_items(items: Seq<ItemView>)
    ensures
        sum_sizes(allowed_items(items)) <= sum_sizes(items),
        forall|j: int| 0 <= j < allowed_items(items).len() ==> !path_denied(#[trigger] allowed_items(items)[j].path),
    decreases items.len(),
{
    if items.len() > 0 {
        lemma_allowed_items(items.drop_last());
        let a = allowed_items(items.drop_last());
        if !path_denied(items.last().path) {
            let b = a.push(items.last());
            assert(b.drop_last() =~= a);
            assert forall|j: int| 0 <= j < b.len() implies !path_denied(#[trigger] b[j].path) by {
                if j < a.len() {
                    assert(b[j] == a[j]);
                }
            }
        }
    }
}

/// Every item whose path is not denied may be deleted; filtering an empty
/// list gives nothing, and one more item at the end is kept exactly when its
/// path is not denied, after the ones kept before it.
pub proof fn lemma_allowed_items_keep(items: Seq<ItemView>, x: ItemView)
    ensures
        allowed_items(Seq::empty()) == Seq::<ItemView>::empty(),
        allowed_items(items.push(x)) == if path_denied(x.path) {
            allowed_items(items)
        } else {
            allowed_items(items).push(x)
        },
        forall|j: int| 0 <= j < items.len() && !path_denied(items[j].path) ==> allowed_items(items).contains(#[trigger] items[j]),
    decreases items.len(),
{
    assert(items.push(x).drop_last() =~= items);
    if items.len() > 0 {
        let rest = items.drop_last();
        lemma_allowed_items_keep(rest, items.last());
        let a = allowed_items(rest);
        assert forall|j: int| 0 <= j < items.len() && !path_denied(items[j].path) implies allowed_items(items).contains(#[trigger] items[j]) by {
            if j < rest.len() {
                assert(items[j] == rest[j]);
                let k = choose|k: int| 0 <= k < a.len() && a[k] == rest[j];
                if !path_denied(items.last().path) {
                    assert(allowed_items(items)[k] == a[k]);
                }
            } else {
                assert(allowed_items(items).last() == items[j]);
            }
        }
    }
}

/// The denylist: a path is denied exactly when it holds "Mobile Documents",
/// "Keychains", "com.apple.bird", "com.apple.cloudd", "com.apple.security" or
/// "com.apple.icloud".
pub proof fn lemma_denylist(path: Seq<char>)
    ensures
        path_denied(path) <==> (has_substring(path, "Mobile Documents"@) || has_substring(path, "Keychains"@)
            || has_substring(path, "com.apple.bird"@) || has_substring(path, "com.apple.cloudd"@)
            || has_substring(path, "com.apple.security"@) || has_substring(path, "com.apple.icloud"@)),
{
    let d = denylist();
    if has_substring(path, "Mobile Documents"@) {
        assert(has_substring(path, d[0]));
    } else if has_substring(path, "Keychains"@) {
        assert(has_substring(path, d[1]));
    } else if has_substring(path, "com.apple.bird"@) {
        assert(has_substring(path, d[2]));
    } else if has_substring(path, "com.apple.cloudd"@) {
        assert(has_substring(path, d[3]));
    } else if has_substring(path, "com.apple.security"@) {
        assert(has_substring(path, d[4]));
    } else if has_substring(path, "com.apple.icloud"@) {
        assert(has_substring(path, d[5]));
    }
}

/// A file name made of a non-empty stem, a '.', and a part without '.' has
/// that part as its extension (".." aside); a name whose only '.' starts it,
/// or that has no '.', has none.
pub proof fn lemma_extension_rule(stem: Seq<char>, ext: Seq<char>)
    ensures
        stem.len() > 0 && (forall|j: int| 0 <= j < ext.len() ==> ext[j] != '.') && stem + "."@ + ext != ".."@
            ==> file_extension(stem + "."@ + ext) == Some(ext),
        (forall|j: int| 0 <= j < ext.len() ==> ext[j] != '.') ==> file_extension(ext) is None,
        (forall|j: int| 0 <= j < ext.len() ==> ext[j] != '.') ==> file_extension("."@ + ext) is None,
{
    reveal_strlit(".");
    let n = stem + "."@ + ext;
    if stem.len() > 0 && (forall|j: int| 0 <= j < ext.len() ==> ext[j] != '.') {
        lemma_last_dot_at(n, stem.len() as int);
        assert(n.subrange((stem.len() + 1) as int, n.len() as int) =~= ext);
    }
    if forall|j: int| 0 <= j < ext.len() ==> ext[j] != '.' {
        lemma_last_dot_at(ext, -1);
        let m = "."@ + ext;
        lemma_last_dot_at(m, 0);
    }
}

/// Sizes add up: nothing sums to 0, and one more item adds its size.
pub proof fn lemma_sum_sizes_adds(items: Seq<ItemView>, x: ItemView)
    ensures
        sum_sizes(Seq::empty()) == 0,
        sum_sizes(items.push(x)) == sum_sizes(items) + x.size,
{
    assert(items.push(x).drop_last() =~= items);
}

/// No path a scan may list is denied, and every path that is not denied is
/// listed.
pub proof fn lemma_allowed_paths(paths: Seq<Seq<char>>)
    ensures
        forall|j: int| 0 <= j < allowed_paths(paths).len() ==> !path_denied(#[trigger] allowed_paths(paths)[j]),
        forall|j: int| 0 <= j < paths.len() && !path_denied(paths[j]) ==> allowed_paths(paths).contains(#[trigger] paths[j]),
    decreases paths.len(),
{
    if paths.len() > 0 {
        let rest = paths.drop_last();
        lemma_allowed_paths(rest);
        let a = allowed_paths(rest);
        if !path_denied(paths.last()) {
            let b = a.push(paths.last());
            assert forall|j: int| 0 <= j < b.len() implies !path_denied(#[trigger] b[j]) by {
                if j < a.len() {
                    assert(b[j] == a[j]);
                }
            }
            assert forall|j: int| 0 <= j < paths.len() && !path_denied(paths[j]) implies b.contains(#[trigger] paths[j]) by {
                if j < rest.len() {
                    assert(paths[j] == rest[j]);
                    assert(a.contains(rest[j]));
                    let k = choose|k: int| 0 <= k < a.len() && a[k] == rest[j];
                    assert(b[k] == a[k]);
                } else {
                    assert(b[a.len() as int] == paths[j]);
                }
            }
        } else {
            assert forall|j: int| 0 <= j < paths.len() && !path_denied(paths[j]) implies a.contains(#[trigger] paths[j]) by {
                if j < rest.len() {
                    assert(paths[j] == rest[j]);
                }
            }
        }
    }
}

/// The paths that are not denied, in their order.
pub open spec fn allowed_paths(paths: Seq<Seq<char>>) -> Seq<Seq<char>>
    decreases paths.len(),
{
    if paths.len() == 0 {
        Seq::empty()
    } else if path_denied(paths.last()) {
        allowed_paths(paths.drop_last())
    } else {
        allowed_paths(paths.drop_last()).push(paths.last())
    }
}

#[derive(Debug, Clone)]
pub struct CategoryEntry {
    pub category: Category,
    pub items: Vec<Item>,
    pub total_size: u64,
    pub skipped_running: usize,
    pub selected: bool,
}

pub struct EntryView {
    pub category: Category,
    pub items: Seq<ItemView>,
    pub total_size: u64,
    pub skipped_running: usize,
    pub selected: bool,
}

impl View for CategoryEntry {
    type V = EntryView;

    open spec fn view(&self) -> EntryView {
        EntryView {
            category: self.category,
            items: item_views(self.items@),
            total_size: self.total_size,
            skipped_running: self.skipped_running,
            selected: self.selected,
        }
    }
}

impl CategoryEntry {
    /// The item count as shown, as in "3 items".
    pub fn file_count_label(&self) -> (r: String)
        ensures
            r@ == decimal(self.items@.len()) + " items"@,
    {
        let mut s = u64_to_decimal(self.items.len() as u64);
        s.append(" items");
        s
    }
}

/// The total size of `items`, or `None` when it does not fit in a `u64`.
pub fn checked_items_total(items: &[Item]) -> (r: Option<u64>)
    ensures
        r == (if sum_sizes(item_views(items@)) <= u64::MAX {
            Some(sum_sizes(item_views(items@)) as u64)
        } else {
            None::<u64>
        }),
{
    let mut total: u64 = 0;
    let mut i: usize = 0;
    while i < items.len()
        invariant
            i <= items@.len(),
            total == sum_sizes(item_views(items@).take(i as int)),
        decreases items@.len() - i,
    {
        proof {
            assert(item_views(items@).take(i + 1).drop_last() =~= item_views(items@).take(i as int));
            lemma_sum_sizes_prefix_le(item_views(items@), i + 1);
        }
        match total.checked_add(items[i].size) {
            Some(t) => total = t,
            None => {
                proof {
                    lemma_sum_sizes_prefix_le(item_views(items@), i + 1);
                    assert(item_views(items@).take(items@.len() as int) =~= item_views(items@));
                }
                return None;
            },
        }
        i = i + 1;
    }
    assert(item_views(items@).take(items@.len() as int) =~= item_views(items@));
    Some(total)
}

/// The total size of the items that may be deleted (those whose paths are
/// not denied), or `None` when it does not fit in a `u64`.
pub fn checked_deletable_total(items: &[Item]) -> (r: Option<u64>)
    ensures
        r == (if sum_sizes(allowed_items(item_views(items@))) <= u64::MAX {
            Some(sum_sizes(allowed_items(item_views(items@))) as u64)
        } else {
            None::<u64>
        }),
{
    let ghost all = item_views(items@);
    let mut total: u64 = 0;
    let mut i: usize = 0;
    while i < items.len()
        invariant
            i <= items@.len(),
            all == item_views(items@),
            total == sum_sizes(allowed_items(all.take(i as int))),
        decreases items@.len() - i,
    {
        proof {
            assert(all.take(i + 1).drop_last() =~= all.take(i as int));
            assert(all.take(i + 1).last() == items@[i as int]@);
            lemma_allowed_prefix_le(all, i + 1);
        }
        if !is_denied(items[i].path.as_str()) {
            proof {
                let a = allowed_items(all.take(i as int));
                assert(allowed_items(all.take(i + 1)).drop_last() =~= a);
            }
            match total.checked_add(items[i].size) {
                Some(t) => total = t,
                None => {
                    proof {
                        assert(all.take(items@.len() as int) =~= all);
                    }
                    return None;
                },
            }
        }
        i = i + 1;
    }
    assert(all.take(items@.len() as int) =~= all);
    Some(total)
}

/// The deletable items of a prefix sum to no more than those of the whole.
proof fn lemma_allowed_prefix_le(items: Seq<ItemView>, k: int)
    requires
        0 <= k <= items.len(),
    ensures
        sum_sizes(allowed_items(items.take(k))) <= sum_sizes(allowed_items(items)),
    decreases items.len() - k,
{
    if k < items.len() {
        lemma_allowed_prefix_le(items, k + 1);
        assert(items.take(k + 1).drop_last() =~= items.take(k));
        let a = allowed_items(items.take(k));
        if !path_denied(items.take(k + 1).last().path) {
            assert(allowed_items(items.take(k + 1)).drop_last() =~= a);
        }
    } else {
        assert(items.take(k) =~= items);
    }
}

/// A prefix sums to no more than the whole.
pub(crate) proof fn lemma_sum_sizes_prefix_le(items: Seq<ItemView>, k: int)
    requires
        0 <= k <= items.len(),
    ensures
        sum_sizes(items.take(k)) <= sum_sizes(items),
    decreases items.len() - k,
{
    if k < items.len() {
        lemma_sum_sizes_prefix_le(items, k + 1);
        assert(items.take(k + 1).drop_last() =~= items.take(k));
    } else {
        assert(items.take(k) =~= items);
    }
}

/// Gathers a category's items into an entry, selected, whose total size is
/// the sum of the item sizes.
pub fn build_entry(category: Category, items: Vec<Item>, skipped_running: usize) -> (r: CategoryEntry)
    requires
        sum_sizes(item_views(items@)) <= u64::MAX,
    ensures
        r@ == (EntryView {
            category,
            items: item_views(items@),
            total_size: sum_sizes(item_views(items@)) as u64,
            skipped_running,
            selected: true,
        }),
{
    let total = checked_items_total(items.as_slice());
    let total_size = match total {
        Some(t) => t,
        None => 0,
    };
    CategoryEntry { category, items, total_size, skipped_running, selected: true }
}

/// The items that may be deleted: those whose paths are not denied. Guards
/// against ever removing a denylisted path even if it ended up in a
/// category's item list.
pub fn assert_deletable(items: &[Item]) -> (r: Vec<&Item>)
    ensures
        r@.map_values(|i: &Item| i@) == allowed_items(item_views(items@)),
{
    let mut r: Vec<&Item> = Vec::new();
    let mut i: usize = 0;
    while i < items.len()
        invariant
            i <= items@.len(),
            r@.map_values(|x: &Item| x@) == allowed_items(item_views(items@).take(i as int)),
        decreases items@.len() - i,
    {
        let ghost prev = r@;
        let item = &items[i];
        proof {
            assert(item_views(items@).take(i + 1).drop_last() =~= item_views(items@).take(i as int));
        }
        if !is_denied(item.path.as_str()) {
            r.push(item);
            assert(r@.map_values(|x: &Item| x@) =~= prev.map_values(|x: &Item| x@).push(item@));
        }
        i = i + 1;
    }
    assert(item_views(items@).take(items@.len() as int) =~= item_views(items@));
    r
}

/// The candidate paths a scan may list: those that are not denied, in their
/// order.
pub fn deletable_paths(paths: Vec<String>) -> (r: Vec<String>)
    ensures
        r@.map_values(|p: String| p@) == allowed_paths(paths@.map_values(|p: String| p@)),
{
    let mut r: Vec<String> = Vec::new();
    let mut i: usize = 0;
    let ghost all = paths@.map_values(|p: String| p@);
    while i < paths.len()
        invariant
            i <= paths@.len(),
            all == paths@.map_values(|p: String| p@),
            r@.map_values(|x: String| x@) == allowed_paths(all.take(i as int)),
        decreases paths@.len() - i,
    {
        let ghost prev = r@;
        proof {
            assert(all.take(i + 1).drop_last() =~= all.take(i as int));
        }
        if !is_denied(paths[i].as_str()) {
            let p = paths[i].clone();
            r.push(p);
            assert(r@.map_values(|x: String| x@) =~= prev.map_values(|x: String| x@).push(all[i as int]));
        }
        i = i + 1;
    }
    assert(all.take(paths@.len() as int) =~= all);
    r
}

/// What a scan learned of one top-level directory: its path, its size (0
/// when it was not measured), and whether a running application uses it.
pub struct RootProbe {
    pub path: String,
    pub size: u64,
    pub in_use: bool,
}

/// The items of the probes that are not in use, in their order.
pub open spec fn unused_items(probes: Seq<RootProbe>) -> Seq<ItemView>
    decreases probes.len(),
{
    if probes.len() == 0 {
        Seq::empty()
    } else if probes.last().in_use {
        unused_items(probes.drop_last())
    } else {
        unused_items(probes.drop_last()).push(ItemView { path: probes.last().path@, size: probes.last().size })
    }
}

/// The number of probes that are in use.
pub open spec fn in_use_count(probes: Seq<RootProbe>) -> nat
    decreases probes.len(),
{
    if probes.len() == 0 {
        0
    } else {
        in_use_count(probes.drop_last()) + if probes.last().in_use { 1nat } else { 0nat }
    }
}

/// Every probed directory is either listed or counted as skipped, and only
/// directories no running application uses are listed.
pub proof fn lemma_roots_listed_or_skipped(probes: Seq<RootProbe>)
    ensures
        unused_items(probes).len() + in_use_count(probes) == probes.len(),
        forall|j: int| 0 <= j < probes.len() && !probes[j].in_use ==> unused_items(probes).contains(
            ItemView { path: (#[trigger] probes[j]).path@, size: probes[j].size },
        ),
    decreases probes.len(),
{
    if probes.len() > 0 {
        let rest = probes.drop_last();
        lemma_roots_listed_or_skipped(rest);
        let a = unused_items(rest);
        let u = unused_items(probes);
        assert forall|j: int| 0 <= j < probes.len() && !probes[j].in_use implies u.contains(
            ItemView { path: (#[trigger] probes[j]).path@, size: probes[j].size },
        ) by {
            if j < rest.len() {
                assert(probes[j] == rest[j]);
                let x = ItemView { path: rest[j].path@, size: rest[j].size };
                assert(a.contains(x));
                let k = choose|k: int| 0 <= k < a.len() && a[k] == x;
                assert(u[k] == a[k]);
            } else {
                assert(u[a.len() as int] == ItemView { path: probes[j].path@, size: probes[j].size });
            }
        }
    }
}

proof fn lemma_in_use_count_le(probes: Seq<RootProbe>)
    ensures
        in_use_count(probes) <= probes.len(),
    decreases probes.len(),
{
    if probes.len() > 0 {
        lemma_in_use_count_le(probes.drop_last());
    }
}

/// Splits the probed top-level directories into the items to list (those no
/// running application uses) and the number skipped because one does.
pub fn collect_roots(probes: Vec<RootProbe>) -> (r: (Vec<Item>, usize))
    ensures
        item_views(r.0@) == unused_items(probes@),
        r.1 == in_use_count(probes@),
{
    let mut items: Vec<Item> = Vec::new();
    let mut skipped: usize = 0;
    let mut i: usize = 0;
    while i < probes.len()
        invariant
            i <= probes@.len(),
            item_views(items@) == unused_items(probes@.take(i as int)),
            skipped == in_use_count(probes@.take(i as int)),
        decreases probes@.len() - i,
    {
        proof {
            assert(probes@.take(i + 1).drop_last() =~= probes@.take(i as int));
            lemma_in_use_count_le(probes@.take(i + 1));
        }
        let p = &probes[i];
        if p.in_use {
            skipped = skipped + 1;
        } else {
            let ghost prev = items@;
            items.push(Item { path: p.path.clone(), size: p.size });
            assert(item_views(items@) =~= item_views(prev).push(ItemView { path: p.path@, size: p.size }));
        }
        i = i + 1;
    }
    assert(probes@.take(probes@.len() as int) =~= probes@);
    (items, skipped)
}

/// A backup folder and its modification time, as signed nanoseconds from the
/// Unix epoch (earlier times order first).
pub struct Backup {
    pub path: String,
    pub modified: i128,
}

/// The views of a sequence of backups: path and modification time.
pub open spec fn backup_views(b: Seq<Backup>) -> Seq<(Seq<char>, i128)> {
    b.map_values(|x: Backup| (x.path@, x.modified))
}

/// Where a backup modified at `t` goes in `s`: before the first one modified
/// no earlier than `t`.
pub open spec fn insert_pos(s: Seq<(Seq<char>, i128)>, t: i128) -> nat
    decreases s.len(),
{
    if s.len() == 0 || s[0].1 >= t {
        0
    } else {
        1 + insert_pos(s.drop_first(), t)
    }
}

/// The backups ordered by modification time, oldest first, those modified at
/// the same time keeping their order (a stable sort by time).
pub open spec fn by_mtime(s: Seq<(Seq<char>, i128)>) -> Seq<(Seq<char>, i128)>
    decreases s.len(),
{
    if s.len() == 0 {
        s
    } else {
        let t = by_mtime(s.drop_first());
        t.insert(insert_pos(t, s[0].1) as int, s[0])
    }
}

/// `s` is ordered by modification time.
pub open spec fn mtime_sorted(s: Seq<(Seq<char>, i128)>) -> bool {
    forall|i: int, j: int| 0 <= i <= j < s.len() ==> s[i].1 <= s[j].1
}

/// The backup that is protected: the last one in time order.
pub open spec fn protected_backup(c: Seq<(Seq<char>, i128)>) -> (Seq<char>, i128) {
    by_mtime(c).last()
}

/// The backups listed as deletable: all but the protected one, oldest first.
pub open spec fn listed_backups(c: Seq<(Seq<char>, i128)>) -> Seq<(Seq<char>, i128)> {
    if c.len() == 0 {
        c
    } else {
        by_mtime(c).drop_last()
    }
}

proof fn lemma_insert_pos_bound(s: Seq<(Seq<char>, i128)>, t: i128)
    ensures
        insert_pos(s, t) <= s.len(),
        forall|i: int| 0 <= i < insert_pos(s, t) ==> s[i].1 < t,
        insert_pos(s, t) < s.len() ==> s[insert_pos(s, t) as int].1 >= t,
    decreases s.len(),
{
    if s.len() > 0 && s[0].1 < t {
        lemma_insert_pos_bound(s.drop_first(), t);
        assert forall|i: int| 0 <= i < insert_pos(s, t) implies s[i].1 < t by {
            if i > 0 {
                assert(s[i] == s.drop_first()[i - 1]);
            }
        }
    }
}

/// Time order holds all the backups, each as often, and is ordered by time.
proof fn lemma_by_mtime(s: Seq<(Seq<char>, i128)>)
    ensures
        by_mtime(s).len() == s.len(),
        by_mtime(s).to_multiset() == s.to_multiset(),
        mtime_sorted(by_mtime(s)),
    decreases s.len(),
{
    broadcast use vstd::seq_lib::group_to_multiset_ensures;
    if s.len() > 0 {
        let rest = s.drop_first();
        lemma_by_mtime(rest);
        let t = by_mtime(rest);
        let x = s[0];
        let p = insert_pos(t, x.1) as int;
        lemma_insert_pos_bound(t, x.1);
        let u = t.insert(p, x);
        assert(u.remove(p) =~= t);
        assert(s.remove(0) =~= rest);
        assert(u.to_multiset() =~= t.to_multiset().insert(x)) by {
            assert(u.remove(p).to_multiset() =~= u.to_multiset().remove(u[p]));
        }
        assert(s.to_multiset() =~= rest.to_multiset().insert(x)) by {
            assert(s.remove(0).to_multiset() =~= s.to_multiset().remove(s[0]));
        }
        assert forall|i: int, j: int| 0 <= i <= j < u.len() implies u[i].1 <= u[j].1 by {
            if i < p && j < p {
            } else if i < p && j == p {
            } else if i < p && j > p {
                assert(u[j] == t[j - 1]);
            } else if i == p && j == p {
            } else if i == p && j > p {
                assert(u[j] == t[j - 1]);
                assert(t[p].1 <= t[j - 1].1);
            } else {
                assert(u[i] == t[i - 1]);
                assert(u[j] == t[j - 1]);
            }
        }
    }
}

/// The newest backup is never listed: it is one of the candidates, no
/// candidate was modified later, the listed backups together with it are
/// exactly the candidates, and they are listed oldest first.
pub proof fn lemma_newest_backup_protected(c: Seq<(Seq<char>, i128)>)
    requires
        c.len() > 0,
    ensures
        c.contains(protected_backup(c)),
        forall|i: int| 0 <= i < c.len() ==> c[i].1 <= protected_backup(c).1,
        listed_backups(c).push(protected_backup(c)).to_multiset() == c.to_multiset(),
        listed_backups(c).len() == c.len() - 1,
        mtime_sorted(listed_backups(c)),
{
    broadcast use vstd::seq_lib::group_to_multiset_ensures;
    lemma_by_mtime(c);
    let s = by_mtime(c);
    assert(s.drop_last().push(s.last()) =~= s);
    assert(s.contains(s.last()));
    assert(c.to_multiset().count(s.last()) > 0);
    assert forall|i: int| 0 <= i < c.len() implies c[i].1 <= protected_backup(c).1 by {
        assert(c.contains(c[i]));
        assert(s.to_multiset().count(c[i]) > 0);
        assert(s.contains(c[i]));
        let k = choose|k: int| 0 <= k < s.len() && s[k] == c[i];
    }
}

/// Backups ordered by modification time with the most recent one removed:
/// the newest backup is protected automatically and never listed, so it can
/// never be selected or deleted. Returns the paths of the others, oldest
/// first.
pub fn ios_backups_excluding_latest(candidates: Vec<Backup>) -> (r: Vec<String>)
    ensures
        r@.map_values(|p: String| p@) == listed_backups(backup_views(candidates@)).map_values(
            |b: (Seq<char>, i128)| b.0,
        ),
{
    let ghost all = backup_views(candidates@);
    let mut rest = candidates;
    let mut sorted: Vec<Backup> = Vec::new();
    while rest.len() > 0
        invariant
            rest@.len() <= all.len(),
            backup_views(rest@) == all.take(rest@.len() as int),
            backup_views(sorted@) == by_mtime(all.skip(rest@.len() as int)),
        decreases rest@.len(),
    {
        let ghost k = rest@.len() as int;
        let ghost prev_rest = rest@;
        let b = match rest.pop() {
            Some(b) => b,
            None => {
                proof { assert(false); }
                return Vec::new();
            },
        };
        proof {
            assert(prev_rest.drop_last() =~= rest@);
            assert(backup_views(rest@) =~= all.take(k - 1));
            assert(all[k - 1] == (b.path@, b.modified)) by {
                assert(backup_views(prev_rest)[k - 1] == all.take(k)[k - 1]);
            }
            assert(all.skip(k - 1).drop_first() =~= all.skip(k));
            lemma_by_mtime(all.skip(k));
        }
        let mut pos: usize = 0;
        assert(backup_views(sorted@).skip(0) =~= backup_views(sorted@));
        while pos < sorted.len() && sorted[pos].modified < b.modified
            invariant
                pos <= sorted@.len(),
                insert_pos(backup_views(sorted@), b.modified) == pos + insert_pos(
                    backup_views(sorted@).skip(pos as int),
                    b.modified,
                ),
            decreases sorted@.len() - pos,
        {
            proof {
                assert(backup_views(sorted@).skip(pos as int).drop_first() =~= backup_views(sorted@).skip(pos + 1));
            }
            pos = pos + 1;
        }
        proof {
            if pos < sorted@.len() {
                assert(backup_views(sorted@).skip(pos as int)[0] == backup_views(sorted@)[pos as int]);
            }
        }
        let ghost before = sorted@;
        sorted.insert(pos, b);
        proof {
            assert(backup_views(sorted@) =~= backup_views(before).insert(pos as int, all[k - 1]));
        }
    }
    proof {
        assert(all.skip(0) =~= all);
        lemma_by_mtime(all);
    }
    let ghost full = sorted@;
    if sorted.len() > 0 {
        sorted.pop();
        assert(backup_views(sorted@) =~= backup_views(full).drop_last());
    }
    let mut r: Vec<String> = Vec::new();
    let mut i: usize = 0;
    while i < sorted.len()
        invariant
            i <= sorted@.len(),
            r@.map_values(|p: String| p@) == backup_views(sorted@).take(i as int).map_values(
                |b: (Seq<char>, i128)| b.0,
            ),
        decreases sorted@.len() - i,
    {
        let ghost prev = r@;
        let p = sorted[i].path.clone();
        r.push(p);
        assert(backup_views(sorted@).take(i + 1) =~= backup_views(sorted@).take(i as int).push(backup_views(sorted@)[i as int]));
        assert(r@.map_values(|p: String| p@) =~= prev.map_values(|p: String| p@).push(p@));
        assert(r@.map_values(|p: String| p@) =~= backup_views(sorted@).take(i + 1).map_values(
            |b: (Seq<char>, i128)| b.0,
        ));
        i = i + 1;
    }
    assert(backup_views(sorted@).take(sorted@.len() as int) =~= backup_views(sorted@));
    r
}

} // verus!
