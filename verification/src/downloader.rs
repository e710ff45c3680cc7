use vstd::prelude::*;

use crate::errors::LeviError;
use crate::links::{
    extension_of, file_name_of, link_decodable, link_error, url_segment, FileLink,
};
use crate::requests::ResponseHead;
use crate::text::{decimal, push_char, push_decimal};
use vstd::string::StringExecFns;

verus! {

/// The size of the file to download, as the response announced it; a
/// response without a length is refused with `LeviError::Url`.
pub fn total_size(head: &ResponseHead) -> (r: Result<u64, LeviError>)
    ensures
        head.content_length matches Some(n) ==> r == Ok::<u64, LeviError>(n),
        head.content_length is None ==> (r matches Err(LeviError::Url(m)) && m@
            == "Url doesn't provide content_length"@),
{
    match head.content_length {
        Some(ct) => Ok(ct),
        None => Err(LeviError::Url(String::from_str("Url doesn't provide content_length"))),
    }
}

/// Where a download goes: the common prefix of its part files, and the path
/// of the finished file.
pub struct DownloadTarget {
    pub file_destination: String,
    pub final_file_path: String,
}

/// The extension a downloaded file gets: the link's own, else `noext`.
pub open spec fn extension_or_default(ext: Option<Seq<char>>) -> Seq<char> {
    match ext {
        Some(e) => e,
        None => "noext"@,
    }
}

/// A link's own extension is kept whole; only a link without one gets
/// `noext`.
pub proof fn lemma_extension_kept_whole(e: Seq<char>)
    ensures
        extension_or_default(Some(e)) == e,
        extension_or_default(None) == "noext"@,
        "."@ + extension_or_default(None) == ".noext"@,
{
    reveal_strlit(".");
    reveal_strlit("noext");
    reveal_strlit(".noext");
    assert("."@ + "noext"@ =~= ".noext"@);
}

/// Decides where the file at `url` goes under the directory prefix
/// `file_path`: `file_path` followed by the link's file name is the prefix of
/// the part files, and that prefix, a `.` and the link's extension (or
/// `noext`) is the final path. Fails as `FileLink::new` does.
pub fn download_target(file_path: &str, url: &str) -> (r: Result<DownloadTarget, LeviError>)
    requires
        link_decodable(url),
    ensures
        link_error(url@) matches Some(m) ==> (r matches Err(LeviError::Url(e)) && e@ == m),
        link_error(url@) is None ==> (r matches Ok(t) && t.file_destination@ == file_path@
            + file_name_of(url_segment(url@)) && t.final_file_path@ == t.file_destination@
            + "."@ + extension_or_default(extension_of(url_segment(url@)))),
        link_error(url@) is None ==> (r matches Ok(t) && (extension_of(url_segment(url@)) matches Some(
            e,
        ) ==> t.final_file_path@ == t.file_destination@ + "."@ + e)),
        link_error(url@) is None ==> (r matches Ok(t) && (extension_of(url_segment(url@)) is None
            ==> t.final_file_path@ == t.file_destination@ + ".noext"@)),
{
    let file_link = match FileLink::new(url) {
        Ok(fl) => fl,
        Err(e) => {
            return Err(e);
        },
    };
    let extension = match file_link.extension {
        Some(ext) => ext,
        None => String::from_str("noext"),
    };
    let mut file_destination = String::from_str(file_path);
    file_destination.append(file_link.filename.as_str());
    let mut final_file_path = String::from_str(file_destination.as_str());
    final_file_path.append(".");
    final_file_path.append(extension.as_str());
    proof {
        lemma_extension_kept_whole(extension@);
        assert(file_destination@ + "."@ + extension_or_default(None) =~= file_destination@ + (
        "."@ + extension_or_default(None)));
    }
    Ok(DownloadTarget { file_destination, final_file_path })
}

/// Whether the file on disk, of `size_on_disk` bytes, is the whole download
/// of `total_size` bytes already: it is not empty and has exactly that size.
pub fn is_already_downloaded(size_on_disk: u64, total_size: u64) -> (r: bool)
    ensures
        r == (size_on_disk > 0 && size_on_disk == total_size),
{
    size_on_disk > 0 && size_on_disk == total_size
}

/// The path of part `part` of the download whose parts start with
/// `file_destination`: that prefix, `.part` and the part's number in decimal.
pub fn part_file_path(file_destination: &str, part: usize) -> (r: String)
    ensures
        r@ == file_destination@ + ".part"@ + decimal(part as nat),
{
    let mut s = String::from_str(file_destination);
    s.append(".part");
    push_decimal(&mut s, part as u64);
    s
}

/// The size of each part but the last: the total divided by the number of
/// parts, rounded down.
pub fn part_size(total_size: u64, num_parts: usize) -> (r: u64)
    requires
        num_parts > 0,
    ensures
        r == total_size / (num_parts as u64),
{
    total_size / (num_parts as u64)
}

/// The first and the last byte that part `part_number` asks for: it starts
/// at `part_number * part_size`; the last part runs to `total_size`, every
/// other one to the byte before the next part's start.
pub open spec fn part_range(part_number: nat, part_size: nat, num_parts: nat, total_size: nat) -> (
    int,
    int,
) {
    let start = (part_number * part_size) as int;
    if part_number == num_parts - 1 {
        (start, total_size as int)
    } else {
        (start, (part_number + 1) * part_size - 1)
    }
}

/// Whether `byte_range` can compute the range of `part_number` without an
/// arithmetic overflow.
pub open spec fn range_computable(part_number: nat, part_size: nat, num_parts: nat) -> bool {
    &&& part_number < num_parts
    &&& part_number * part_size <= u64::MAX
    &&& part_number + 1 < num_parts ==> {
        &&& (part_number + 1) * part_size <= u64::MAX
        &&& part_size > 0
    }
}

/// The first and the last byte that part `part_number` of `num_parts` asks
/// for, each part but the last being `part_size` bytes long.
pub fn byte_range(part_number: usize, part_size: u64, num_parts: usize, total_size: u64) -> (r: (
    u64,
    u64,
))
    requires
        range_computable(part_number as nat, part_size as nat, num_parts as nat),
    ensures
        (r.0 as int, r.1 as int) == part_range(
            part_number as nat,
            part_size as nat,
            num_parts as nat,
            total_size as nat,
        ),
{
    let p = part_number as u64;
    let start = p * part_size;
    let end = if part_number == num_parts - 1 {
        total_size
    } else {
        proof {
            assert((p + 1) * part_size >= 1) by (nonlinear_arith)
                requires
                    part_size > 0,
            ;
        }
        (p + 1) * part_size - 1
    };
    (start, end)
}

/// The value of the `Range` header that asks for bytes `start` to `end`.
pub fn range_header(start: u64, end: u64) -> (r: String)
    ensures
        r@ == "bytes="@ + decimal(start as nat) + "-"@ + decimal(end as nat),
{
    let mut s = String::from_str("bytes=");
    push_decimal(&mut s, start);
    push_char(&mut s, '-');
    push_decimal(&mut s, end);
    proof {
        reveal_strlit("-");
        assert(("bytes="@ + decimal(start as nat)).push('-') =~= "bytes="@ + decimal(start as nat)
            + "-"@);
    }
    s
}

} // verus!

verus! {

/// One part of a download: the file it is written to and the bytes it asks for.
pub struct PartPlan {
    pub path: String,
    pub start: u64,
    pub end: u64,
}

/// Whether a download of `total_size` bytes can be split into `num_parts`
/// parts without a division by zero or an underflow: there is at least one
/// part, and each part but the last gets at least one byte.
pub open spec fn splittable(total_size: nat, num_parts: nat) -> bool {
    num_parts > 0 && (num_parts == 1 || total_size >= num_parts)
}

/// With parts of `total_size / num_parts` bytes, every part's range can be
/// computed without an overflow.
pub proof fn lemma_ranges_computable(total_size: nat, num_parts: nat, part_number: nat)
    requires
        splittable(total_size, num_parts),
        total_size <= u64::MAX,
        part_number < num_parts,
    ensures
        range_computable(part_number, total_size / num_parts, num_parts),
{
    let q = total_size / num_parts;
    assert(q * num_parts <= total_size) by (nonlinear_arith)
        requires
            num_parts > 0,
            q == total_size / num_parts,
    ;
    assert(part_number * q <= (part_number + 1) * q) by (nonlinear_arith);
    assert((part_number + 1) * q <= num_parts * q) by (nonlinear_arith)
        requires
            part_number < num_parts,
    ;
    if part_number + 1 < num_parts {
        assert(q >= 1) by (nonlinear_arith)
            requires
                num_parts > 1,
                total_size >= num_parts,
                q == total_size / num_parts,
        ;
    }
}

/// The parts of a download of `total_size` bytes into `num_parts` parts
/// whose files start with `file_destination`: part `i` goes to
/// `file_destination.part<i>` and asks for the bytes of
/// `part_range(i, total_size / num_parts, num_parts, total_size)`.
pub fn plan_parts(file_destination: &str, total_size: u64, num_parts: usize) -> (r: Vec<PartPlan>)
    requires
        splittable(total_size as nat, num_parts as nat),
    ensures
        r.len() == num_parts,
        forall|i: int|
            0 <= i < num_parts ==> {
                &&& #[trigger] r[i].path@ == file_destination@ + ".part"@ + decimal(i as nat)
                &&& (r[i].start as int, r[i].end as int) == part_range(
                    i as nat,
                    (total_size / (num_parts as u64)) as nat,
                    num_parts as nat,
                    total_size as nat,
                )
            },
{
    let size = part_size(total_size, num_parts);
    let mut parts: Vec<PartPlan> = Vec::new();
    let mut part: usize = 0;
    while part < num_parts
        invariant
            part <= num_parts,
            splittable(total_size as nat, num_parts as nat),
            size == total_size / (num_parts as u64),
            parts.len() == part,
            forall|i: int|
                0 <= i < part ==> {
                    &&& #[trigger] parts[i].path@ == file_destination@ + ".part"@ + decimal(
                        i as nat,
                    )
                    &&& (parts[i].start as int, parts[i].end as int) == part_range(
                        i as nat,
                        size as nat,
                        num_parts as nat,
                        total_size as nat,
                    )
                },
        decreases num_parts - part,
    {
        proof {
            lemma_ranges_computable(total_size as nat, num_parts as nat, part as nat);
        }
        let path = part_file_path(file_destination, part);
        let (start, end) = byte_range(part, size, num_parts, total_size);
        parts.push(PartPlan { path, start, end });
        part = part + 1;
    }
    parts
}

} // verus!

verus! {

/// The parts of a download cover its bytes without a gap or an overlap: the
/// first part starts at byte 0, each part but the first starts right after
/// the last byte of the part before it, each part asks for at least one
/// byte, and the last part ends at `total_size`.
pub proof fn lemma_parts_tile(total_size: nat, num_parts: nat)
    requires
        splittable(total_size, num_parts),
    ensures
        part_range(0, total_size / num_parts, num_parts, total_size).0 == 0,
        part_range((num_parts - 1) as nat, total_size / num_parts, num_parts, total_size).1
            == total_size,
        forall|i: nat|
            i + 1 < num_parts ==> #[trigger] part_range(
                (i + 1) as nat,
                total_size / num_parts,
                num_parts,
                total_size,
            ).0 == part_range(i, total_size / num_parts, num_parts, total_size).1 + 1,
        forall|i: nat|
            i < num_parts ==> #[trigger] part_range(i, total_size / num_parts, num_parts, total_size).0
                <= part_range(i, total_size / num_parts, num_parts, total_size).1,
{
    let q = total_size / num_parts;
    assert(q * num_parts <= total_size) by (nonlinear_arith)
        requires
            num_parts > 0,
            q == total_size / num_parts,
    ;
    assert forall|i: nat| i + 1 < num_parts implies #[trigger] part_range(
        (i + 1) as nat,
        q,
        num_parts,
        total_size,
    ).0 == part_range(i, q, num_parts, total_size).1 + 1 by {
        assert(q >= 1) by (nonlinear_arith)
            requires
                num_parts > 1,
                total_size >= num_parts,
                q == total_size / num_parts,
        ;
        assert((i + 1) * q == i * q + q) by (nonlinear_arith);
    }
    assert forall|i: nat| i < num_parts implies #[trigger] part_range(
        i,
        q,
        num_parts,
        total_size,
    ).0 <= part_range(i, q, num_parts, total_size).1 by {
        assert((i + 1) * q == i * q + q) by (nonlinear_arith);
        assert(i * q <= num_parts * q) by (nonlinear_arith)
            requires
                i < num_parts,
        ;
        if i + 1 < num_parts {
            assert(q >= 1) by (nonlinear_arith)
                requires
                    num_parts > 1,
                    total_size >= num_parts,
                    q == total_size / num_parts,
            ;
        } else {
            assert((i + 1) * q <= num_parts * q) by (nonlinear_arith)
                requires
                    i < num_parts,
            ;
        }
    }
}

} // verus!

verus! {

/// Distinct parts are written to distinct files, so that no part overwrites
/// another before they are merged.
pub proof fn lemma_part_paths_distinct(file_destination: Seq<char>, i: nat, j: nat)
    requires
        i != j,
    ensures
        file_destination + ".part"@ + decimal(i) != file_destination + ".part"@ + decimal(j),
{
    let p = file_destination + ".part"@;
    crate::text::lemma_decimal_injective(i, j);
    assert((p + decimal(i)).skip(p.len() as int) =~= decimal(i));
    assert((p + decimal(j)).skip(p.len() as int) =~= decimal(j));
}

} // verus!

verus! {

/// What happens while the body of one part is being read.
pub enum ChunkEvent {
    /// The download was cancelled.
    Cancelled,
    /// Reading the next chunk failed or timed out.
    Failed(LeviError),
    /// A chunk of the body arrived.
    Chunk,
    /// The body is complete.
    EndOfBody,
}

/// What the part download does next.
pub enum PartAction {
    /// Write the chunk to the part file, flush it, and read on.
    WriteAndContinue,
    /// Flush the part file and stop without an error: the download was
    /// cancelled.
    FlushAndStop,
    /// Flush the part file and stop: the part is complete.
    FlushAndFinish,
    /// Stop with this error.
    Fail(LeviError),
}

/// The step of a part download after `event`: a chunk is written and
/// reading goes on; a cancellation and the end of the body both flush the
/// file and end the part without an error; a failure ends it with that error.
pub fn next_part_action(event: ChunkEvent) -> (a: PartAction)
    ensures
        event is Cancelled ==> a is FlushAndStop,
        event is Chunk ==> a is WriteAndContinue,
        event is EndOfBody ==> a is FlushAndFinish,
        event matches ChunkEvent::Failed(e) ==> (a matches PartAction::Fail(f) && f == e),
{
    match event {
        ChunkEvent::Cancelled => PartAction::FlushAndStop,
        ChunkEvent::Failed(e) => PartAction::Fail(e),
        ChunkEvent::Chunk => PartAction::WriteAndContinue,
        ChunkEvent::EndOfBody => PartAction::FlushAndFinish,
    }
}

} // verus!

verus! {

/// Part `i` starts at byte `i * (total_size / num_parts)`, and every part but
/// the last asks for exactly `total_size / num_parts` bytes; the last one
/// takes the remainder too.
pub proof fn lemma_part_sizes(total_size: nat, num_parts: nat, i: nat)
    requires
        splittable(total_size, num_parts),
        i < num_parts,
    ensures
        part_range(i, total_size / num_parts, num_parts, total_size).0 == i * (total_size
            / num_parts),
        i + 1 < num_parts ==> part_range(i, total_size / num_parts, num_parts, total_size).1
            - part_range(i, total_size / num_parts, num_parts, total_size).0 + 1 == total_size
            / num_parts,
        i + 1 == num_parts ==> part_range(i, total_size / num_parts, num_parts, total_size).1
            == total_size,
{
    let q = total_size / num_parts;
    assert((i + 1) * q == i * q + q) by (nonlinear_arith);
}

} // verus!
