//! Writing to a board file while KiCAD may have it open.

use crate::chars::{decimal, decimal_text};
use crate::edit::{apply_edits, edited, edits_fit, edits_fit_in, splices, SexpEdit, Splice};
#[allow(unused_imports)]
use crate::scan::{
    balanced_block, block_with_lead, check_document, cuttable, document_fault, find_balanced_block,
    find_block_with_leading_whitespace, is_document, lemma_block_cuttable, DocumentError,
};
#[allow(unused_imports)]
use crate::text::{bytes, copy, put};
use vstd::prelude::*;
use vstd::string::*;

verus! {

// ─── Keeping a running KiCAD in step ─────────────────────────────────────────

/// What happened to KiCAD's view of the board around a file write.
#[derive(Debug, Clone, PartialEq)]
pub enum BoardSync {
    /// KiCAD is not running, or has a different board open. Nothing to do.
    NotOpen,
    /// KiCAD had this board open and was told to reload it from disk.
    Reloaded,
    /// KiCAD had this board open but the reload failed; the file on disk is
    /// correct, the editor is showing something older.
    ReloadFailed(String),
}

/// One thing to do around a write of the board file.
#[derive(Debug, Clone, Copy, PartialEq, Eq, Structural)]
pub enum SyncAction {
    /// Ask KiCAD to save, so that what the user changed by hand is on disk.
    SaveBoard,
    /// Write the file.
    WriteFile,
    /// Ask KiCAD to reload the file that was written.
    RevertBoard,
}

/// What KiCAD answered when it was asked to reload.
#[derive(Debug)]
pub enum RevertReply {
    Reverted,
    Failed(String),
}

/// The steps of a write: with the board open in KiCAD, save first and reload
/// after; otherwise only the write.
pub open spec fn sync_plan(open_here: bool) -> Seq<SyncAction> {
    if open_here {
        seq![SyncAction::SaveBoard, SyncAction::WriteFile, SyncAction::RevertBoard]
    } else {
        seq![SyncAction::WriteFile]
    }
}

/// The steps of a write, in order.
pub fn board_sync_plan(open_here: bool) -> (r: Vec<SyncAction>)
    ensures
        r@ == sync_plan(open_here),
{
    let mut out: Vec<SyncAction> = Vec::new();
    if open_here {
        out.push(SyncAction::SaveBoard);
    }
    out.push(SyncAction::WriteFile);
    if open_here {
        out.push(SyncAction::RevertBoard);
    }
    assert(out@ =~= sync_plan(open_here));
    out
}

/// What became of KiCAD's view of the board.
pub fn board_sync_after(was_open: bool, reply: RevertReply) -> (r: BoardSync)
    ensures
        match r {
            BoardSync::NotOpen => !was_open,
            BoardSync::Reloaded => was_open && reply is Reverted,
            BoardSync::ReloadFailed(e) => was_open && reply == RevertReply::Failed(e),
        },
{
    if !was_open {
        BoardSync::NotOpen
    } else {
        match reply {
            RevertReply::Reverted => BoardSync::Reloaded,
            RevertReply::Failed(e) => BoardSync::ReloadFailed(e),
        }
    }
}

/// The file is written exactly once whether or not KiCAD has the board open, and
/// KiCAD saves before the write and reloads after it exactly if it does.
pub proof fn law_sync_plan(open_here: bool)
    ensures
        exists|i: int| #![trigger sync_plan(open_here)[i]]
            0 <= i < sync_plan(open_here).len() && sync_plan(open_here)[i] == SyncAction::WriteFile
                && (forall|j: int|
                0 <= j < sync_plan(open_here).len() && j != i ==> #[trigger] sync_plan(open_here)[j]
                    != SyncAction::WriteFile) && (sync_plan(open_here).contains(
                SyncAction::SaveBoard,
            ) <==> open_here) && (sync_plan(open_here).contains(SyncAction::RevertBoard) <==> open_here)
                && (open_here ==> i == 1 && sync_plan(open_here)[0] == SyncAction::SaveBoard
                && sync_plan(open_here)[2] == SyncAction::RevertBoard),
{
    let p = sync_plan(open_here);
    if open_here {
        assert(p[0] == SyncAction::SaveBoard);
        assert(p[1] == SyncAction::WriteFile);
        assert(p[2] == SyncAction::RevertBoard);
    } else {
        assert(p[0] == SyncAction::WriteFile);
    }
}

/// What tells the caller that the editor may be stale.
pub open spec fn stale_note() -> Seq<char> {
    "KiCAD has this board open and could not be reloaded — use File > Revert in KiCAD, or its in-memory copy will overwrite this change on save."@
}

impl BoardSync {
    /// A note for the caller when the editor may now be stale.
    pub fn note(&self) -> (r: Option<String>)
        ensures
            match r {
                Some(t) => self is ReloadFailed && t@ == stale_note(),
                None => !(self is ReloadFailed),
            },
    {
        match self {
            BoardSync::ReloadFailed(_) => Some(
                copy(
                    "KiCAD has this board open and could not be reloaded — use File > Revert in KiCAD, or its in-memory copy will overwrite this change on save.",
                ),
            ),
            _ => None,
        }
    }
}

/// What to tell the caller about KiCAD's own window after a write.
pub open spec fn write_note_text(sync: BoardSync) -> Seq<char> {
    match sync {
        BoardSync::ReloadFailed(_) => stale_note(),
        BoardSync::Reloaded => "Written to the file; KiCAD reloaded the board."@,
        BoardSync::NotOpen =>
            "Written to the file. KiCAD does not have this board open, so nothing needed reloading."@,
    }
}

/// What to tell the caller about KiCAD's own window after a write.
pub fn write_note(sync: &BoardSync) -> (r: String)
    ensures
        r@ == write_note_text(*sync),
{
    match sync.note() {
        Some(t) => t,
        None => match sync {
            BoardSync::Reloaded => copy("Written to the file; KiCAD reloaded the board."),
            _ => copy(
                "Written to the file. KiCAD does not have this board open, so nothing needed reloading.",
            ),
        },
    }
}

// ─── Where a new top-level item goes ─────────────────────────────────────────

/// The offset of the root block's closing parenthesis.
pub open spec fn root_close(s: Seq<u8>) -> Option<int> {
    match balanced_block(s, 0) {
        Some((_, e)) => Some(e - 1),
        None => None,
    }
}

/// The refusal to edit a file without a balanced root.
pub open spec fn no_root_text(board: Seq<char>) -> Seq<char> {
    "'"@ + board + "' has no balanced (kicad_pcb …) root block — refusing to edit it."@
}

/// Offset of the root block's closing parenthesis, where a new top-level item
/// goes. The last `)` of the file need not be it: that may stand in a string.
pub fn root_close_offset(content: &str) -> (r: Option<usize>)
    ensures
        match r {
            Some(p) => root_close(bytes(content@)) == Some(p as int) && cuttable(
                bytes(content@),
                p as int,
                p as int,
            ),
            None => root_close(bytes(content@)).is_none(),
        },
{
    match find_balanced_block(content, 0) {
        None => None,
        Some((a, e)) => {
            proof {
                lemma_block_cuttable(content@, a as int, e as int);
            }
            Some(e - 1)
        },
    }
}

/// The insert offset for a new top-level item, or the error to return when the
/// file has no balanced root block.
pub fn root_close_or_error(content: &str, board: &str) -> (r: Result<usize, String>)
    ensures
        match r {
            Ok(p) => root_close(bytes(content@)) == Some(p as int) && cuttable(
                bytes(content@),
                p as int,
                p as int,
            ),
            Err(e) => root_close(bytes(content@)).is_none() && e@ == no_root_text(board@),
        },
{
    match root_close_offset(content) {
        Some(p) => Ok(p),
        None => {
            let mut out = copy("'");
            put(&mut out, board);
            put(&mut out, "' has no balanced (kicad_pcb …) root block — refusing to edit it.");
            Err(out)
        },
    }
}

// ─── Deleting an item ────────────────────────────────────────────────────────

/// The refusal to delete a block whose range is unknown.
pub open spec fn no_range_text(what: Seq<char>, board: Seq<char>) -> Seq<char> {
    "Refusing to delete "@ + what + ": its byte range in '"@ + board
        + "' could not be established. Nothing was written."@
}

/// The refusal to delete a range that is not the block.
pub open spec fn wrong_range_text(what: Seq<char>, a: int, b: int, start: int, end: int) -> Seq<char> {
    "Refusing to delete "@ + what + ": the computed range "@ + decimal(a as nat) + ".."@ + decimal(
        b as nat,
    ) + " does not match the block at "@ + decimal(start as nat) + ".."@ + decimal(end as nat)
        + ". Nothing was written."@
}

/// The byte range to delete for the block at `start..end`, or the reason to
/// refuse. A lookup that does not land exactly on the block is a refusal, never
/// some default range.
pub open spec fn delete_range_of(
    s: Seq<u8>,
    start: int,
    end: int,
    what: Seq<char>,
    board: Seq<char>,
) -> Result<(int, int), Seq<char>> {
    match block_with_lead(s, start) {
        None => Err(no_range_text(what, board)),
        Some((a, b)) => if a > start || b != end {
            Err(wrong_range_text(what, a, b, start, end))
        } else {
            Ok((a, b))
        },
    }
}

/// The byte range to delete for the block at `block_start..block_end`, or the
/// reason to refuse.
pub fn delete_range(
    content: &str,
    block_start: usize,
    block_end: usize,
    what: &str,
    board: &str,
) -> (r: Result<(usize, usize), String>)
    ensures
        match r {
            Ok((a, b)) => {
                &&& delete_range_of(
                    bytes(content@),
                    block_start as int,
                    block_end as int,
                    what@,
                    board@,
                ) == Ok::<(int, int), Seq<char>>((a as int, b as int))
                &&& cuttable(bytes(content@), a as int, b as int)
                &&& a <= block_start
                &&& b == block_end
            },
            Err(e) => delete_range_of(
                bytes(content@),
                block_start as int,
                block_end as int,
                what@,
                board@,
            ) == Err::<(int, int), Seq<char>>(e@),
        },
{
    match find_block_with_leading_whitespace(content, block_start) {
        None => {
            let mut out = copy("Refusing to delete ");
            put(&mut out, what);
            put(&mut out, ": its byte range in '");
            put(&mut out, board);
            put(&mut out, "' could not be established. Nothing was written.");
            Err(out)
        },
        Some((a, b)) => {
            if a > block_start || b != block_end {
                let mut out = copy("Refusing to delete ");
                put(&mut out, what);
                put(&mut out, ": the computed range ");
                put(&mut out, decimal_text(a as u64).as_str());
                put(&mut out, "..");
                put(&mut out, decimal_text(b as u64).as_str());
                put(&mut out, " does not match the block at ");
                put(&mut out, decimal_text(block_start as u64).as_str());
                put(&mut out, "..");
                put(&mut out, decimal_text(block_end as u64).as_str());
                put(&mut out, ". Nothing was written.");
                Err(out)
            } else {
                Ok((a, b))
            }
        },
    }
}

// ─── Committing edits ────────────────────────────────────────────────────────

/// The refusal to write a file that an edit would have damaged.
pub open spec fn corrupt_text(board: Seq<char>, why: DocumentError) -> Seq<char> {
    "Internal error: the edit would have corrupted '"@ + board + "' ("@ + why.words()
        + ") — nothing was written."@
}

/// The refusal to make edits that overlap or leave the file.
pub open spec fn overlap_text(board: Seq<char>) -> Seq<char> {
    "Refusing to edit '"@ + board + "': two changes touch the same bytes. Nothing was written."@
}

/// What committing `es` to a file with the root `root` comes to: the text after
/// them, or the reason to write nothing.
pub open spec fn committed(
    s: Seq<u8>,
    es: Seq<Splice>,
    root: Seq<char>,
    board: Seq<char>,
) -> Result<Seq<u8>, Seq<char>> {
    if !edits_fit(s, es) {
        Err(overlap_text(board))
    } else {
        match document_fault(edited(s, es), bytes(root)) {
            Some(why) => Err(corrupt_text(board, why)),
            None => Ok(edited(s, es)),
        }
    }
}

/// A written text as a value.
pub open spec fn written(r: Result<String, String>) -> Result<Seq<u8>, Seq<char>> {
    match r {
        Ok(t) => Ok(bytes(t@)),
        Err(e) => Err(e@),
    }
}

/// The file after `edits`, but only if it is still one balanced `(root …)` block;
/// otherwise the reason to write nothing.
pub fn commit(content: &str, edits: &Vec<SexpEdit>, root: &str, board: &str) -> (r: Result<
    String,
    String,
>)
    ensures
        written(r) == committed(bytes(content@), splices(edits@), root@, board@),
{
    if !edits_fit_in(content, edits) {
        let mut out = copy("Refusing to edit '");
        put(&mut out, board);
        put(&mut out, "': two changes touch the same bytes. Nothing was written.");
        return Err(out);
    }
    let after = apply_edits(content, edits);
    match check_document(after.as_str(), root) {
        Ok(()) => Ok(after),
        Err(why) => {
            let mut out = copy("Internal error: the edit would have corrupted '");
            put(&mut out, board);
            put(&mut out, "' (");
            put(&mut out, why.message().as_str());
            put(&mut out, ") — nothing was written.");
            Err(out)
        },
    }
}

/// Committing no edits to a sound file gives the file back.
pub proof fn law_commit_nothing(s: Seq<u8>, root: Seq<char>, board: Seq<char>)
    requires
        is_document(s, bytes(root)),
    ensures
        committed(s, Seq::empty(), root, board) == Ok::<Seq<u8>, Seq<char>>(s),
{
    crate::edit::law_no_edits(s);
}

/// What is committed is always one balanced block with the expected tag.
pub proof fn law_committed_is_sound(s: Seq<u8>, es: Seq<Splice>, root: Seq<char>, board: Seq<char>)
    ensures
        match committed(s, es, root, board) {
            Ok(t) => is_document(t, bytes(root)),
            Err(_) => true,
        },
{
}

} // verus!
