use vstd::prelude::*;

use crate::error::CustomError;

verus! {

/// The kind of a filesystem entry.
#[derive(Debug, Clone, Copy, PartialEq, Eq, Structural)]
pub enum EntryType {
    Dir,
    File,
    Unknown,
}

impl EntryType {
    /// The textual tag stored for this kind.
    pub open spec fn tag(self) -> Seq<char> {
        match self {
            EntryType::Dir => seq!['D', 'i', 'r'],
            EntryType::File => seq!['F', 'i', 'l', 'e'],
            EntryType::Unknown => seq!['U', 'n', 'k', 'n', 'o', 'w', 'n'],
        }
    }

    /// The kind a stored tag names: `Dir` and `File` name theirs, any other
    /// tag means `Unknown`.
    pub fn from_tag(tag: &str) -> (r: EntryType)
        ensures
            r == (if tag@ == EntryType::Dir.tag() {
                EntryType::Dir
            } else if tag@ == EntryType::File.tag() {
                EntryType::File
            } else {
                EntryType::Unknown
            }),
    {
        proof {
            reveal_strlit("Dir");
            reveal_strlit("File");
        }
        let t = tag.to_owned();
        if t == String::from_str("Dir") {
            assert("Dir"@ =~= EntryType::Dir.tag());
            EntryType::Dir
        } else if t == String::from_str("File") {
            assert("File"@ =~= EntryType::File.tag());
            EntryType::File
        } else {
            assert("Dir"@ =~= EntryType::Dir.tag());
            assert("File"@ =~= EntryType::File.tag());
            EntryType::Unknown
        }
    }

    /// The textual tag of this kind: `Dir`, `File` or `Unknown`.
    pub fn to_string(&self) -> (r: String)
        ensures
            r@ == self.tag(),
    {
        proof {
            reveal_strlit("Dir");
            reveal_strlit("File");
            reveal_strlit("Unknown");
        }
        match self {
            EntryType::Dir => String::from_str("Dir"),
            EntryType::File => String::from_str("File"),
            EntryType::Unknown => String::from_str("Unknown"),
        }
    }
}

/// The mathematical content of an [`EntryMeta`].
pub ghost struct MetaModel {
    pub path: Seq<char>,
    pub size: u64,
    pub modified: u64,
    pub access_count: u32,
    pub entry_type: EntryType,
}

impl MetaModel {
    /// The same record with its counter raised by one, saturating at `u32::MAX`.
    pub open spec fn bumped(self) -> MetaModel {
        MetaModel {
            access_count: if self.access_count < u32::MAX {
                (self.access_count + 1) as u32
            } else {
                u32::MAX
            },
            ..self
        }
    }

    /// The same record, filed under another path.
    pub open spec fn with_path(self, path: Seq<char>) -> MetaModel {
        MetaModel { path, ..self }
    }
}

/// The record that stands for a path about which nothing else is known.
pub open spec fn placeholder(path: Seq<char>) -> MetaModel {
    MetaModel { path, size: 0, modified: 0, access_count: 0, entry_type: EntryType::Unknown }
}

/// Metadata of one filesystem entry, with the access counter kept by the index.
/// `modified` is in whole seconds since the Unix epoch.
#[derive(Debug, Clone)]
pub struct EntryMeta {
    pub path: String,
    pub size: u64,
    pub modified: u64,
    pub access_count: u32,
    pub entry_type: EntryType,
}

impl View for EntryMeta {
    type V = MetaModel;

    open spec fn view(&self) -> MetaModel {
        MetaModel {
            path: self.path@,
            size: self.size,
            modified: self.modified,
            access_count: self.access_count,
            entry_type: self.entry_type,
        }
    }
}

/// Where a record ranks: files before everything else, and within the same
/// group the higher access count first; between a directory and a record
/// of unknown kind with the same count, the directory first. Two records
/// rank equal exactly when they have the same kind and the same count.
pub open spec fn meta_order(a: MetaModel, b: MetaModel) -> core::cmp::Ordering {
    let a_file = a.entry_type == EntryType::File;
    let b_file = b.entry_type == EntryType::File;
    if a_file && !b_file {
        core::cmp::Ordering::Less
    } else if !a_file && b_file {
        core::cmp::Ordering::Greater
    } else if a.access_count > b.access_count {
        core::cmp::Ordering::Less
    } else if a.access_count < b.access_count {
        core::cmp::Ordering::Greater
    } else if a.entry_type == b.entry_type {
        core::cmp::Ordering::Equal
    } else if a.entry_type == EntryType::Dir {
        core::cmp::Ordering::Less
    } else {
        core::cmp::Ordering::Greater
    }
}

/// The ranking agrees with equality: two records rank equal exactly when
/// they are equal, and swapping them reverses the ranking.
pub proof fn order_agrees_with_equality(a: MetaModel, b: MetaModel)
    ensures
        (meta_order(a, b) == core::cmp::Ordering::Equal) <==> (a.access_count == b.access_count
            && a.entry_type == b.entry_type),
        meta_order(a, b) == core::cmp::Ordering::Less <==> meta_order(b, a)
            == core::cmp::Ordering::Greater,
{
}

impl PartialEq for EntryMeta {
    /// Two records are equal when their counters and kinds are.
    fn eq(&self, other: &EntryMeta) -> (r: bool)
        ensures
            r == (self.access_count == other.access_count && self.entry_type == other.entry_type),
    {
        self.access_count == other.access_count && self.entry_type == other.entry_type
    }
}

impl vstd::std_specs::cmp::PartialEqSpecImpl for EntryMeta {
    open spec fn obeys_eq_spec() -> bool {
        true
    }

    open spec fn eq_spec(&self, other: &EntryMeta) -> bool {
        self.access_count == other.access_count && self.entry_type == other.entry_type
    }
}

impl PartialOrd for EntryMeta {
    fn partial_cmp(&self, other: &EntryMeta) -> (r: Option<core::cmp::Ordering>)
        ensures
            r == Some(meta_order(self@, other@)),
    {
        let a_file = self.entry_type == EntryType::File;
        let b_file = other.entry_type == EntryType::File;
        if a_file && !b_file {
            Some(core::cmp::Ordering::Less)
        } else if !a_file && b_file {
            Some(core::cmp::Ordering::Greater)
        } else if self.access_count > other.access_count {
            Some(core::cmp::Ordering::Less)
        } else if self.access_count < other.access_count {
            Some(core::cmp::Ordering::Greater)
        } else if self.entry_type == other.entry_type {
            Some(core::cmp::Ordering::Equal)
        } else if self.entry_type == EntryType::Dir {
            Some(core::cmp::Ordering::Less)
        } else {
            Some(core::cmp::Ordering::Greater)
        }
    }
}

impl vstd::std_specs::cmp::PartialOrdSpecImpl for EntryMeta {
    open spec fn obeys_partial_cmp_spec() -> bool {
        true
    }

    open spec fn partial_cmp_spec(&self, other: &EntryMeta) -> Option<core::cmp::Ordering> {
        Some(meta_order(self@, other@))
    }
}

impl EntryMeta {
    /// A record for `path` with the given size, modification time and kind,
    /// and a counter at zero.
    pub fn new(path: &str, size: u64, modified: u64, entry_type: EntryType) -> (r: EntryMeta)
        ensures
            r@ == (MetaModel { path: path@, size, modified, access_count: 0, entry_type }),
    {
        EntryMeta { path: path.to_owned(), size, modified, access_count: 0, entry_type }
    }

    /// A record with an empty path, no size, no known modification time and
    /// an unknown kind.
    pub fn new_empty() -> (r: Result<EntryMeta, CustomError>)
        ensures
            r is Ok,
            r->Ok_0@ == placeholder(Seq::empty()),
    {
        Ok(EntryMeta {
            path: String::new(),
            size: 0,
            modified: 0,
            access_count: 0,
            entry_type: EntryType::Unknown,
        })
    }

    /// The placeholder record for `path`: no size, no known modification time,
    /// an unknown kind and a counter at zero.
    pub fn placeholder_for(path: &str) -> (r: EntryMeta)
        ensures
            r@ == placeholder(path@),
    {
        EntryMeta::new(path, 0, 0, EntryType::Unknown)
    }

    /// Raises the access counter by one; it stays at `u32::MAX` once there.
    pub fn increment_access_count(&mut self)
        ensures
            final(self)@ == old(self)@.bumped(),
    {
        if self.access_count < u32::MAX {
            self.access_count = self.access_count + 1;
        }
    }

    /// A copy of this record.
    pub fn duplicate(&self) -> (r: EntryMeta)
        ensures
            r@ == self@,
    {
        EntryMeta {
            path: self.path.clone(),
            size: self.size,
            modified: self.modified,
            access_count: self.access_count,
            entry_type: self.entry_type,
        }
    }

    /// A copy of this record filed under `path`.
    pub fn moved_to(&self, path: &str) -> (r: EntryMeta)
        ensures
            r@ == self@.with_path(path@),
    {
        EntryMeta {
            path: path.to_owned(),
            size: self.size,
            modified: self.modified,
            access_count: self.access_count,
            entry_type: self.entry_type,
        }
    }
}

} // verus!
