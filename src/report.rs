use vstd::prelude::*;
use crate::order::{sort_by_size, sort_by_size_stable};
use crate::render::{bytes_lines, format_bytes, format_readable, readable_lines, texts};
use crate::tree::{get_disk_usage, usage_error, usage_records, views, FsNode, Record, WalkError};

verus! {

/// The lines of a report on `s`: ordered by size when `sort` is set,
/// rendered human-readable or in bytes.
pub open spec fn report_lines(s: Seq<Record>, human_readable: bool, sort: bool) -> Seq<Seq<char>> {
    let ordered = if sort {
        sort_by_size(s)
    } else {
        s
    };
    if human_readable {
        readable_lines(ordered)
    } else {
        bytes_lines(ordered)
    }
}

/// The lines that report the disk usage of `root` down to `depth`, one per
/// record, in traversal order or by ascending size.
pub fn log_disk_usage(root: &FsNode, depth: u16, human_readable: bool, sort: bool) -> (r: Result<
    Vec<String>,
    WalkError,
>)
    ensures
        match r {
            Ok(lines) => {
                &&& usage_error(*root) is None
                &&& texts(lines@) == report_lines(
                    usage_records(*root, depth as nat),
                    human_readable,
                    sort,
                )
            },
            Err(e) => usage_error(*root) == Some(e),
        },
{
    let records = match get_disk_usage(root, depth) {
        Ok(records) => records,
        Err(e) => {
            return Err(e);
        },
    };
    let ordered = if sort {
        sort_by_size_stable(&records)
    } else {
        records
    };
    if human_readable {
        Ok(format_readable(&ordered))
    } else {
        Ok(format_bytes(&ordered))
    }
}

} // verus!
