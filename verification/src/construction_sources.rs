//! Where a merge of two construction files stops that cannot be finished: the
//! files are read block by block as the merge goes on, so what is met first is
//! what is reported.
use vstd::prelude::*;
use vstd::slice::*;
use vstd::string::*;

use crate::cancellation::{ask, goes_on, later_question};
use crate::digest::{hex_sha256, sha256_hex};
use crate::framing::{decode, Framed, scan};
use crate::index_format::{
    block_described, block_matches, BlockRecord, BlockView, BULK_IO_BYTES, FileRecord, FileView,
};
use crate::keyed::Keyed;

verus! {

/// What can be wrong with a file that is read block by block.
#[derive(Clone, Copy, Debug, PartialEq, Eq, Structural)]
pub enum SourceFault {
    /// A block does not follow the one before, or its length is out of bounds.
    Framing,
    /// The file ends inside a block.
    Short,
    /// A block is not what it is described as.
    Block,
    /// The blocks together are not what the file is described as.
    Whole,
}

/// What a merge reports of a faulty file.
pub open spec fn merge_fault_text(fault: SourceFault) -> Seq<char> {
    match fault {
        SourceFault::Framing => "construction merge block framing changed"@,
        SourceFault::Short => "failed to fill whole buffer"@,
        SourceFault::Block => "construction merge source block changed"@,
        SourceFault::Whole => "construction merge source authentication failed"@,
    }
}

fn merge_fault_message(fault: SourceFault) -> (text: &'static str)
    ensures
        text@ == merge_fault_text(fault),
{
    match fault {
        SourceFault::Framing => "construction merge block framing changed",
        SourceFault::Short => "failed to fill whole buffer",
        SourceFault::Block => "construction merge source block changed",
        SourceFault::Whole => "construction merge source authentication failed",
    }
}

/// A file as a merge reads it: the records that it gives, and what is wrong
/// with it after the last of them, if anything is.
#[verifier::ext_equal]
pub struct SourceModel<T> {
    pub records: Seq<T>,
    pub fault: Option<SourceFault>,
}

/// Bytes that some blocks cover.
pub open spec fn covered(blocks: Seq<BlockView>) -> nat
    decreases blocks.len(),
{
    if blocks.len() == 0 {
        0
    } else {
        covered(blocks.drop_last()) + blocks.last().len as nat
    }
}

/// What some blocks of a file give.
pub open spec fn walked<T: Framed>(bytes: Seq<u8>, blocks: Seq<BlockView>) -> SourceModel<T>
    decreases blocks.len(),
{
    if blocks.len() == 0 {
        SourceModel { records: Seq::empty(), fault: None }
    } else {
        let before = walked::<T>(bytes, blocks.drop_last());
        let at = covered(blocks.drop_last());
        let block = blocks.last();
        if before.fault is Some {
            before
        } else if block.offset != at || block.len == 0 || block.len > BULK_IO_BYTES {
            SourceModel { fault: Some(SourceFault::Framing), ..before }
        } else if at + block.len > bytes.len() {
            SourceModel { fault: Some(SourceFault::Short), ..before }
        } else if !block_described::<T>(bytes.subrange(at as int, at + block.len), block) {
            SourceModel { fault: Some(SourceFault::Block), ..before }
        } else {
            SourceModel {
                records: before.records + scan::<T>(bytes.subrange(at as int, at + block.len)).0,
                fault: None,
            }
        }
    }
}

/// What a described file gives.
pub open spec fn source<T: Framed>(bytes: Seq<u8>, file: FileView) -> SourceModel<T> {
    let read = walked::<T>(bytes, file.blocks);
    if read.fault is None && (read.records.len() != file.count || sha256_hex(
        bytes.take(covered(file.blocks) as int),
    ) != file.sha256) {
        SourceModel { fault: Some(SourceFault::Whole), ..read }
    } else {
        read
    }
}

/// What a merge meets from the records at `i` and `j` on, if anything.
pub open spec fn merge_stop<T: Framed>(
    left: SourceModel<T>,
    right: SourceModel<T>,
    i: int,
    j: int,
) -> Option<Seq<char>>
    decreases left.records.len() - i + right.records.len() - j,
{
    if i < 0 || j < 0 || i > left.records.len() || j > right.records.len() || (i
        == left.records.len() && j == right.records.len()) {
        None
    } else if i < left.records.len() && j < right.records.len() && left.records[i].key()
        == right.records[j].key() {
        Some("construction index merge found duplicate key"@)
    } else if j == right.records.len() || (i < left.records.len() && left.records[i].key()
        < right.records[j].key()) {
        if i + 1 == left.records.len() && left.fault is Some {
            Some(merge_fault_text(left.fault->0))
        } else {
            merge_stop(left, right, i + 1, j)
        }
    } else if j + 1 == right.records.len() && right.fault is Some {
        Some(merge_fault_text(right.fault->0))
    } else {
        merge_stop(left, right, i, j + 1)
    }
}

/// What is reported of a merge of two described files that cannot be
/// finished.
pub open spec fn merge_text<T: Framed>(
    left: Seq<u8>,
    left_file: FileView,
    right: Seq<u8>,
    right_file: FileView,
) -> Seq<char> {
    let older = source::<T>(left, left_file);
    let newer = source::<T>(right, right_file);
    if older.records.len() == 0 && older.fault is Some {
        merge_fault_text(older.fault->0)
    } else if newer.records.len() == 0 && newer.fault is Some {
        merge_fault_text(newer.fault->0)
    } else {
        match merge_stop(older, newer, 0, 0) {
            Some(text) => text,
            None => "construction merge source authentication failed"@,
        }
    }
}

/// Bytes of the blocks that a merge writes: whole records of the greatest
/// width.
pub open spec fn output_bytes(width: nat) -> nat {
    (1_048_576nat / width) * width
}

/// Questions whether to go on that a merge asks from the records at `i` and `j`
/// on, with `filled` bytes in its block: one whenever the block may not hold
/// another record.
pub open spec fn merge_questions<T: Framed>(
    left: SourceModel<T>,
    right: SourceModel<T>,
    i: int,
    j: int,
    filled: nat,
    width: nat,
) -> nat
    decreases left.records.len() - i + right.records.len() - j,
{
    if i < 0 || j < 0 || i > left.records.len() || j > right.records.len() || (i
        == left.records.len() && j == right.records.len()) {
        0
    } else if i < left.records.len() && j < right.records.len() && left.records[i].key()
        == right.records[j].key() {
        0
    } else {
        let from_left = j == right.records.len() || (i < left.records.len()
            && left.records[i].key() < right.records[j].key());
        let now = filled + if from_left {
            left.records[i].packed().len()
        } else {
            right.records[j].packed().len()
        };
        let stops = if from_left {
            i + 1 == left.records.len() && left.fault is Some
        } else {
            j + 1 == right.records.len() && right.fault is Some
        };
        let full = now + width > output_bytes(width);
        let after = if full {
            0
        } else {
            now
        };
        if stops {
            0
        } else if from_left {
            merge_questions(left, right, i + 1, j, after, width) + if full {
                1nat
            } else {
                0
            }
        } else {
            merge_questions(left, right, i, j + 1, after, width) + if full {
                1nat
            } else {
                0
            }
        }
    }
}

/// Questions that a merge of two described files asks before it ends or stops.
#[verifier::opaque]
pub open spec fn merge_asks<T: Framed>(
    left: Seq<u8>,
    left_file: FileView,
    right: Seq<u8>,
    right_file: FileView,
    width: nat,
) -> nat {
    let older = source::<T>(left, left_file);
    let newer = source::<T>(right, right_file);
    if (older.records.len() == 0 && older.fault is Some) || (newer.records.len() == 0
        && newer.fault is Some) {
        0
    } else {
        merge_questions(older, newer, 0, 0, 0, width)
    }
}

proof fn lemma_walk_fails<T: Framed>(bytes: Seq<u8>, blocks: Seq<BlockView>, n: int)
    requires
        0 <= n <= blocks.len(),
        walked::<T>(bytes, blocks.take(n)).fault is Some,
    ensures
        walked::<T>(bytes, blocks) == walked::<T>(bytes, blocks.take(n)),
    decreases blocks.len(),
{
    if n < blocks.len() {
        assert(blocks.drop_last().take(n) =~= blocks.take(n));
        lemma_walk_fails::<T>(bytes, blocks.drop_last(), n);
    } else {
        assert(blocks.take(n) =~= blocks);
    }
}

/// Read a described file block by block, as far as it is in order.
pub(crate) fn read_source<T: Framed>(bytes: &[u8], file: &FileRecord) -> (read: (
    Vec<T>,
    Option<SourceFault>,
))
    ensures
        source::<T>(bytes@, file@) == (SourceModel { records: read.0@, fault: read.1 }),
{
    let ghost blocks = file@.blocks;
    let mut records: Vec<T> = Vec::new();
    let mut at: usize = 0;
    let mut i: usize = 0;
    assert(blocks.take(0) =~= Seq::<BlockView>::empty());
    while i < file.blocks.len()
        invariant
            i <= file.blocks@.len(),
            blocks == file@.blocks,
            at <= bytes@.len(),
            at == covered(blocks.take(i as int)),
            walked::<T>(bytes@, blocks.take(i as int)) == (SourceModel {
                records: records@,
                fault: None,
            }),
        decreases file.blocks.len() - i,
    {
        proof {
            assert(blocks.take(i + 1).drop_last() =~= blocks.take(i as int));
            assert(blocks[i as int] == file.blocks@[i as int]@);
        }
        let block: &BlockRecord = &file.blocks[i];
        let fault: Option<SourceFault> = if block.offset != at as u64 || block.len == 0
            || block.len as usize > BULK_IO_BYTES {
            Some(SourceFault::Framing)
        } else if bytes.len() - at < block.len as usize {
            Some(SourceFault::Short)
        } else {
            let end: usize = at + block.len as usize;
            let slice: &[u8] = slice_subrange(bytes, at, end);
            if !block_matches::<T>(slice, block) {
                Some(SourceFault::Block)
            } else {
                match decode::<T>(slice) {
                    Ok(more) => {
                        let mut more: Vec<T> = more;
                        let ghost before = records@;
                        let ghost added = more@;
                        records.append(&mut more);
                        assert(records@ =~= before + added);
                    },
                    Err(_) => {},
                }
                at = end;
                None
            }
        };
        i = i + 1;
        match fault {
            Some(_) => {
                proof {
                    lemma_walk_fails::<T>(bytes@, blocks, i as int);
                }
                return (records, fault);
            },
            None => {},
        }
    }
    assert(blocks.take(i as int) =~= blocks);
    let whole: &[u8] = slice_subrange(bytes, 0, at);
    assert(whole@ =~= bytes@.take(at as int));
    if records.len() as u64 != file.count || hex_sha256(whole) != file.sha256 {
        return (records, Some(SourceFault::Whole));
    }
    (records, None)
}

fn find_stop<T: Framed>(
    left: &Vec<T>,
    left_fault: Option<SourceFault>,
    right: &Vec<T>,
    right_fault: Option<SourceFault>,
) -> (stop: Option<&'static str>)
    ensures
        ({
            let met = merge_stop(
                SourceModel { records: left@, fault: left_fault },
                SourceModel { records: right@, fault: right_fault },
                0,
                0,
            );
            match stop {
                Some(text) => met == Some(text@),
                None => met is None,
            }
        }),
{
    let ghost older = SourceModel { records: left@, fault: left_fault };
    let ghost newer = SourceModel { records: right@, fault: right_fault };
    let mut i: usize = 0;
    let mut j: usize = 0;
    while i < left.len() || j < right.len()
        invariant
            i <= left@.len(),
            j <= right@.len(),
            older == (SourceModel { records: left@, fault: left_fault }),
            newer == (SourceModel { records: right@, fault: right_fault }),
            merge_stop(older, newer, 0, 0) == merge_stop(older, newer, i as int, j as int),
        decreases left.len() - i + right.len() - j,
    {
        let take_left: bool = if j == right.len() {
            true
        } else if i == left.len() {
            false
        } else {
            let less: bool = left[i].before(&right[j]);
            if !less && !right[j].before(&left[i]) {
                return Some("construction index merge found duplicate key");
            }
            less
        };
        if take_left {
            i = i + 1;
            if i == left.len() {
                match left_fault {
                    Some(fault) => {
                        return Some(merge_fault_message(fault));
                    },
                    None => {},
                }
            }
        } else {
            j = j + 1;
            if j == right.len() {
                match right_fault {
                    Some(fault) => {
                        return Some(merge_fault_message(fault));
                    },
                    None => {},
                }
            }
        }
    }
    None
}

/// Ask the questions of a merge: one of them is answered with no, or the
/// questions from the next one on.
pub fn ask_merge<T: Framed>(
    left: &[u8],
    left_file: &FileRecord,
    right: &[u8],
    right_file: &FileRecord,
    width: usize,
    cancelled: Option<u64>,
) -> (rest: Option<Option<u64>>)
    requires
        0 < width <= BULK_IO_BYTES,
    ensures
        ({
            let asked = merge_asks::<T>(left@, left_file@, right@, right_file@, width as nat);
            match rest {
                Some(rest) => goes_on(cancelled, asked) && rest == later_question(
                    cancelled,
                    asked,
                ),
                None => !goes_on(cancelled, asked),
            }
        }),
{
    if cancelled.is_none() {
        return Some(None);
    }
    proof {
        reveal(merge_asks);
    }
    let older: (Vec<T>, Option<SourceFault>) = read_source::<T>(left, left_file);
    let newer: (Vec<T>, Option<SourceFault>) = read_source::<T>(right, right_file);
    if (older.0.len() == 0 && older.1.is_some()) || (newer.0.len() == 0 && newer.1.is_some()) {
        return Some(cancelled);
    }
    let ghost one = source::<T>(left@, left_file@);
    let ghost two = source::<T>(right@, right_file@);
    let ghost all = merge_questions(one, two, 0, 0, 0, width as nat);
    let ghost mut asked: nat = 0;
    proof {
        lemma_output_bytes(width as nat);
    }
    let limit: usize = (BULK_IO_BYTES / width) * width;
    let mut block: Vec<u8> = Vec::new();
    let mut rest: Option<u64> = cancelled;
    let mut i: usize = 0;
    let mut j: usize = 0;
    while i < older.0.len() || j < newer.0.len()
        invariant
            i <= older.0@.len(),
            j <= newer.0@.len(),
            0 < width <= limit,
            limit == output_bytes(width as nat),
            one == (SourceModel { records: older.0@, fault: older.1 }),
            two == (SourceModel { records: newer.0@, fault: newer.1 }),
            all == merge_asks::<T>(left@, left_file@, right@, right_file@, width as nat),
            all == asked + merge_questions(
                one,
                two,
                i as int,
                j as int,
                block@.len(),
                width as nat,
            ),
            goes_on(cancelled, asked),
            rest == later_question(cancelled, asked),
        decreases older.0.len() - i + newer.0.len() - j,
    {
        let take_left: bool = if j == newer.0.len() {
            true
        } else if i == older.0.len() {
            false
        } else {
            let less: bool = older.0[i].before(&newer.0[j]);
            if !less && !newer.0[j].before(&older.0[i]) {
                return Some(rest);
            }
            less
        };
        if take_left {
            older.0[i].push(&mut block);
            i = i + 1;
            if i == older.0.len() && older.1.is_some() {
                return Some(rest);
            }
        } else {
            newer.0[j].push(&mut block);
            j = j + 1;
            if j == newer.0.len() && newer.1.is_some() {
                return Some(rest);
            }
        }
        if block.len() > limit - width {
            rest =
            match ask(rest) {
                Some(rest) => rest,
                None => {
                    return None;
                },
            };
            proof {
                asked = asked + 1;
            }
            block.clear();
        }
    }
    Some(rest)
}

proof fn lemma_output_bytes(width: nat)
    requires
        0 < width <= 1_048_576,
    ensures
        width <= output_bytes(width) <= 1_048_576,
{
    assert((1_048_576nat / width) * width <= 1_048_576) by (nonlinear_arith)
        requires
            0 < width <= 1_048_576,
    ;
    assert((1_048_576nat / width) * width >= width) by (nonlinear_arith)
        requires
            0 < width <= 1_048_576,
    ;
}

/// What is to be reported of a merge that cannot be finished.
pub fn explain_merge<T: Framed>(
    left: &[u8],
    left_file: &FileRecord,
    right: &[u8],
    right_file: &FileRecord,
) -> (text: String)
    ensures
        text@ == merge_text::<T>(left@, left_file@, right@, right_file@),
{
    let older: (Vec<T>, Option<SourceFault>) = read_source::<T>(left, left_file);
    let newer: (Vec<T>, Option<SourceFault>) = read_source::<T>(right, right_file);
    if older.0.len() == 0 {
        match older.1 {
            Some(fault) => {
                return merge_fault_message(fault).to_owned();
            },
            None => {},
        }
    }
    if newer.0.len() == 0 {
        match newer.1 {
            Some(fault) => {
                return merge_fault_message(fault).to_owned();
            },
            None => {},
        }
    }
    match find_stop(&older.0, older.1, &newer.0, newer.1) {
        Some(text) => text.to_owned(),
        None => "construction merge source authentication failed".to_owned(),
    }
}

} // verus!
