use vstd::prelude::*;

use crate::meta::{EntryMeta, EntryType, MetaModel};

verus! {

/// A command for the store's single writer.
#[allow(non_camel_case_types)]
pub enum DbAction {
    /// Insert a row for the path.
    CREATE(String, EntryMeta),
    /// Does nothing; kept for diagnostics.
    FIND,
    /// Remove the path's row, or every row under it for a directory.
    DELETE(String),
    /// Update the path's row, or insert it when there is none.
    UPDATE(String, EntryMeta),
}

/// The mathematical content of a [`DbAction`].
pub ghost enum ActionModel {
    Create(Seq<char>, MetaModel),
    Find,
    Delete(Seq<char>),
    Update(Seq<char>, MetaModel),
}

impl View for DbAction {
    type V = ActionModel;

    open spec fn view(&self) -> ActionModel {
        match self {
            DbAction::CREATE(p, m) => ActionModel::Create(p@, m@),
            DbAction::FIND => ActionModel::Find,
            DbAction::DELETE(p) => ActionModel::Delete(p@),
            DbAction::UPDATE(p, m) => ActionModel::Update(p@, m@),
        }
    }
}

/// What the writer does to the store for one command.
pub enum StoreOp {
    /// Insert a new row.
    Insert(String, EntryMeta),
    /// Update the row of the path, or insert it.
    Upsert(String, EntryMeta),
    /// Delete every row whose path starts with this string.
    DeletePrefix(String),
    /// Delete the row of exactly this path.
    DeleteOne(String),
    /// Leave the store alone.
    Nothing,
}

/// The mathematical content of a [`StoreOp`].
pub ghost enum StoreOpModel {
    Insert(Seq<char>, MetaModel),
    Upsert(Seq<char>, MetaModel),
    DeletePrefix(Seq<char>),
    DeleteOne(Seq<char>),
    Nothing,
}

impl View for StoreOp {
    type V = StoreOpModel;

    open spec fn view(&self) -> StoreOpModel {
        match self {
            StoreOp::Insert(p, m) => StoreOpModel::Insert(p@, m@),
            StoreOp::Upsert(p, m) => StoreOpModel::Upsert(p@, m@),
            StoreOp::DeletePrefix(p) => StoreOpModel::DeletePrefix(p@),
            StoreOp::DeleteOne(p) => StoreOpModel::DeleteOne(p@),
            StoreOp::Nothing => StoreOpModel::Nothing,
        }
    }
}

/// The store operation for a command, given what the command's path is on
/// disk now (`Unknown` when it is gone).
pub open spec fn store_op_spec(a: ActionModel, on_disk: EntryType) -> StoreOpModel {
    match a {
        ActionModel::Create(p, m) => StoreOpModel::Insert(p, m),
        ActionModel::Update(p, m) => StoreOpModel::Upsert(p, m),
        ActionModel::Find => StoreOpModel::Nothing,
        ActionModel::Delete(p) => match on_disk {
            EntryType::Dir => StoreOpModel::DeletePrefix(p),
            EntryType::File => StoreOpModel::DeleteOne(p),
            EntryType::Unknown => StoreOpModel::Nothing,
        },
    }
}

/// Whether `p` starts with `prefix`.
pub open spec fn starts_with(p: Seq<char>, prefix: Seq<char>) -> bool {
    prefix.len() <= p.len() && p.subrange(0, prefix.len() as int) == prefix
}

/// The paths that hold a row after the writer has carried out `op` on a
/// store whose rows hold the paths `rows`.
pub open spec fn rows_after(rows: Set<Seq<char>>, op: StoreOpModel) -> Set<Seq<char>> {
    match op {
        StoreOpModel::Insert(p, _) => rows.insert(p),
        StoreOpModel::Upsert(p, _) => rows.insert(p),
        StoreOpModel::DeletePrefix(p) => rows.filter(|r: Seq<char>| !starts_with(r, p)),
        StoreOpModel::DeleteOne(p) => rows.remove(p),
        StoreOpModel::Nothing => rows,
    }
}

/// Decides what the writer does for one command: creation inserts,
/// update upserts; a deletion removes the whole prefix for a directory, the
/// single row for a file, and nothing for a path that is gone from disk.
pub fn db_writer_step(action: DbAction, on_disk: EntryType) -> (r: StoreOp)
    ensures
        r@ == store_op_spec(action@, on_disk),
{
    match action {
        DbAction::CREATE(p, m) => StoreOp::Insert(p, m),
        DbAction::UPDATE(p, m) => StoreOp::Upsert(p, m),
        DbAction::FIND => StoreOp::Nothing,
        DbAction::DELETE(p) => match on_disk {
            EntryType::Dir => StoreOp::DeletePrefix(p),
            EntryType::File => StoreOp::DeleteOne(p),
            EntryType::Unknown => StoreOp::Nothing,
        },
    }
}

} // verus!
