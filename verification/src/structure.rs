//! The tree of files and folders that a diagram is drawn from.

use crate::text::str_eq;
use vstd::prelude::*;

verus! {

/// What kind of file a leaf is, as far as its colour goes.
#[derive(Debug, Clone, Copy, PartialEq, Eq, Structural)]
pub enum FileType {
    Code,
    Data,
    Configuration,
    Unknown,
}

/// A node of the tree: a file, or a folder with its children in a fixed order.
#[derive(Debug)]
pub enum Item {
    File { name: String, full_name: String, size: u64, class: FileType, refs: Vec<String> },
    Folder { name: String, items: Vec<Item> },
}

/// Why no layout can be made of a tree.
#[derive(Debug, Clone, Copy, PartialEq, Eq, Structural)]
pub enum Unlayoutable {
    /// The tree holds no file.
    NoFiles,
    /// The tree is a single file of weight 1.
    UnitWeight,
    /// The tree holds more files than can be counted.
    TooManyFiles,
}

/// What is to be done with an entry of a directory.
#[derive(Debug, Clone, Copy, PartialEq, Eq, Structural)]
pub enum Entry {
    /// A directory that becomes a folder of the tree.
    Folder,
    /// A file that becomes a leaf of the tree.
    File,
    /// Anything that is left out of the tree.
    Skipped,
}

/// The kind of file that an extension stands for.
pub open spec fn class_of(extension: Option<Seq<char>>) -> FileType {
    match extension {
        None => FileType::Unknown,
        Some(t) => if t == "rs"@ || t == "cs"@ || t == "js"@ || t == "ts"@ || t == "r"@ || t
            == "cpp"@ || t == "py"@ {
            FileType::Code
        } else if t == "csv"@ || t == "tsv"@ || t == "xlsx"@ || t == "xls"@ || t == "fasta"@ {
            FileType::Data
        } else if t == "yaml"@ || t == "toml"@ || t == "lock"@ {
            FileType::Configuration
        } else {
            FileType::Unknown
        },
    }
}

/// The characters of an optional string slice.
pub open spec fn opt_view(s: Option<&str>) -> Option<Seq<char>> {
    match s {
        None => None,
        Some(t) => Some(t@),
    }
}

/// Whether `name` is one of the names in `ignore`.
pub open spec fn listed(name: Seq<char>, ignore: Seq<&str>) -> bool {
    exists|i: int| 0 <= i < ignore.len() && (#[trigger] ignore[i])@ == name
}

/// What becomes of a directory entry: a directory is a folder unless its name
/// is listed in `ignore`, a file is a leaf, and an entry without a name, or
/// one that is neither, is left out.
pub open spec fn entry_kind_of(
    is_dir: bool,
    is_file: bool,
    name: Option<Seq<char>>,
    ignore: Seq<&str>,
) -> Entry {
    if is_dir && !(name is Some && listed(name->0, ignore)) {
        if name is Some {
            Entry::Folder
        } else {
            Entry::Skipped
        }
    } else if is_file && name is Some {
        Entry::File
    } else {
        Entry::Skipped
    }
}

/// The weight that a file of `len` bytes enters the layout with: its length,
/// and 1 for an empty file, so that no weight is zero.
pub open spec fn weight_input_of(len: u64) -> u64 {
    if len == 0 {
        1
    } else {
        len
    }
}

/// The kind of file that a file-name extension stands for; a file without an
/// extension is of unknown kind.
pub fn find_class(extension: Option<&str>) -> (r: FileType)
    ensures
        r == class_of(opt_view(extension)),
{
    match extension {
        None => FileType::Unknown,
        Some(t) => {
            if str_eq(t, "rs") || str_eq(t, "cs") || str_eq(t, "js") || str_eq(t, "ts") || str_eq(
                t,
                "r",
            ) || str_eq(t, "cpp") || str_eq(t, "py") {
                FileType::Code
            } else if str_eq(t, "csv") || str_eq(t, "tsv") || str_eq(t, "xlsx") || str_eq(t, "xls")
                || str_eq(t, "fasta") {
                FileType::Data
            } else if str_eq(t, "yaml") || str_eq(t, "toml") || str_eq(t, "lock") {
                FileType::Configuration
            } else {
                FileType::Unknown
            }
        },
    }
}

/// Whether `name` is one of the names in `ignore`.
pub fn is_ignored(name: &str, ignore: &[&str]) -> (r: bool)
    ensures
        r == listed(name@, ignore@),
{
    let mut i: usize = 0;
    while i < ignore.len()
        invariant
            i <= ignore.len(),
            forall|k: int| 0 <= k < i ==> (#[trigger] ignore@[k])@ != name@,
        decreases ignore.len() - i,
    {
        if str_eq(ignore[i], name) {
            return true;
        }
        i = i + 1;
    }
    false
}

/// Decides what becomes of a directory entry, given whether it is a directory
/// or a file, its name if it has one, and the names to leave out.
pub fn entry_kind(is_dir: bool, is_file: bool, name: Option<&str>, ignore: &[&str]) -> (r: Entry)
    ensures
        r == entry_kind_of(is_dir, is_file, opt_view(name), ignore@),
{
    match name {
        None => Entry::Skipped,
        Some(n) => {
            if is_dir && !is_ignored(n, ignore) {
                Entry::Folder
            } else if is_file {
                Entry::File
            } else {
                Entry::Skipped
            }
        },
    }
}

/// The weight that a file of `len` bytes enters the layout with.
pub fn weight_input(len: u64) -> (r: u64)
    ensures
        r == weight_input_of(len),
        r >= 1,
{
    if len == 0 {
        1
    } else {
        len
    }
}

/// The number of files in a run of sibling nodes.
pub open spec fn leaf_count_of(items: Seq<Item>) -> nat
    decreases items, 0nat,
{
    if items.len() == 0 {
        0
    } else {
        leaf_count_of(items.drop_last()) + items.last().leaf_count()
    }
}

/// The first `n` siblings hold the files of the first `n - 1` and those below
/// the last of them.
pub proof fn lemma_leaf_count_take(items: Seq<Item>, n: int)
    requires
        0 < n <= items.len(),
    ensures
        leaf_count_of(items.take(n)) == leaf_count_of(items.take(n - 1)) + items[n - 1].leaf_count(),
{
    assert(items.take(n).drop_last() =~= items.take(n - 1));
}

/// A run of siblings holds at least as many files as any of its prefixes.
pub proof fn lemma_leaf_count_monotone(items: Seq<Item>, n: int)
    requires
        0 <= n <= items.len(),
    ensures
        leaf_count_of(items.take(n)) <= leaf_count_of(items),
    decreases items.len(),
{
    if n == items.len() {
        assert(items.take(n) =~= items);
    } else {
        lemma_leaf_count_monotone(items.drop_last(), n);
        assert(items.drop_last().take(n) =~= items.take(n));
    }
}

impl Item {
    /// The number of files below this node, the node itself included.
    pub open spec fn leaf_count(self) -> nat
        decreases self, 1nat,
    {
        match self {
            Item::File { .. } => 1,
            Item::Folder { items, .. } => leaf_count_of(items@),
        }
    }

    /// The number of files of a tree of which a layout can be made, or why
    /// none can.
    pub open spec fn layoutable(self) -> Result<i32, Unlayoutable> {
        if self.leaf_count() > i32::MAX {
            Err(Unlayoutable::TooManyFiles)
        } else if self.leaf_count() == 0 {
            Err(Unlayoutable::NoFiles)
        } else if self is File && weight_input_of(self->size) <= 1 {
            Err(Unlayoutable::UnitWeight)
        } else {
            Ok(self.leaf_count() as i32)
        }
    }

    /// The colour of the node: one for each kind of file, and one for folders.
    pub open spec fn colour_name(self) -> Seq<char> {
        match self {
            Item::File { class, .. } => match class {
                FileType::Code => "var(--color-primary)"@,
                FileType::Data => "var(--color-primary-shade)"@,
                FileType::Configuration => "var(--color-secondary)"@,
                FileType::Unknown => "var(--color-tertiary)"@,
            },
            Item::Folder { .. } => "var(--color-light)"@,
        }
    }

    /// The node's name as a sequence of characters.
    pub open spec fn label(self) -> Seq<char> {
        match self {
            Item::File { name, .. } => name@,
            Item::Folder { name, .. } => name@,
        }
    }

    /// The number of files below this node, as long as it fits the result.
    pub fn files(&self) -> (r: i32)
        requires
            self.leaf_count() <= i32::MAX,
        ensures
            r == self.leaf_count(),
        decreases self,
    {
        match self {
            Item::File { .. } => 1,
            Item::Folder { items, .. } => {
                let mut total: i32 = 0;
                let mut i: usize = 0;
                while i < items.len()
                    invariant
                        i <= items.len(),
                        total == leaf_count_of(items@.take(i as int)),
                        leaf_count_of(items@) <= i32::MAX,
                        *self is Folder,
                        self->items == *items,
                    decreases items.len() - i,
                {
                    proof {
                        lemma_leaf_count_take(items@, i as int + 1);
                        lemma_leaf_count_monotone(items@, i as int + 1);
                    }
                    total = total + items[i].files();
                    i = i + 1;
                }
                proof {
                    assert(items@.take(i as int) =~= items@);
                }
                total
            },
        }
    }

    /// The number of files below this node, or `None` where it does not fit.
    pub fn checked_files(&self) -> (r: Option<i32>)
        ensures
            r == (if self.leaf_count() <= i32::MAX {
                Some(self.leaf_count() as i32)
            } else {
                None
            }),
        decreases self,
    {
        match self {
            Item::File { .. } => Some(1),
            Item::Folder { items, .. } => {
                let mut total: i32 = 0;
                let mut i: usize = 0;
                while i < items.len()
                    invariant
                        i <= items.len(),
                        total == leaf_count_of(items@.take(i as int)),
                        *self is Folder,
                        self->items == *items,
                    decreases items.len() - i,
                {
                    proof {
                        lemma_leaf_count_take(items@, i as int + 1);
                        lemma_leaf_count_monotone(items@, i as int + 1);
                    }
                    let below = match items[i].checked_files() {
                        Some(n) => n,
                        None => { return None; },
                    };
                    total = match total.checked_add(below) {
                        Some(n) => n,
                        None => { return None; },
                    };
                    i = i + 1;
                }
                proof {
                    assert(items@.take(i as int) =~= items@);
                }
                Some(total)
            },
        }
    }

    /// Whether a layout can be made of the tree with this node as its root,
    /// and if so, of how many files. None can be made of a tree without
    /// files, which has no weight, nor of a single file of weight 1, by whose
    /// weight no other can be measured.
    pub fn check_layoutable(&self) -> (r: Result<i32, Unlayoutable>)
        ensures
            r == self.layoutable(),
    {
        match self.checked_files() {
            None => Err(Unlayoutable::TooManyFiles),
            Some(count) => {
                if count == 0 {
                    Err(Unlayoutable::NoFiles)
                } else {
                    match self {
                        Item::File { size, .. } => {
                            if weight_input(*size) <= 1 {
                                Err(Unlayoutable::UnitWeight)
                            } else {
                                Ok(count)
                            }
                        },
                        Item::Folder { .. } => Ok(count),
                    }
                }
            },
        }
    }

    /// The colour that the node is drawn in.
    pub fn colour(&self) -> (r: &'static str)
        ensures
            r@ == self.colour_name(),
    {
        match self {
            Item::File { class, .. } => match class {
                FileType::Code => "var(--color-primary)",
                FileType::Data => "var(--color-primary-shade)",
                FileType::Configuration => "var(--color-secondary)",
                FileType::Unknown => "var(--color-tertiary)",
            },
            Item::Folder { .. } => "var(--color-light)",
        }
    }

    /// The name of the file or folder.
    pub fn name(&self) -> (r: &str)
        ensures
            r@ == self.label(),
    {
        match self {
            Item::File { name, .. } => name.as_str(),
            Item::Folder { name, .. } => name.as_str(),
        }
    }
}

} // verus!
