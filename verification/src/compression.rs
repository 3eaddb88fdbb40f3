//! Archive formats, recognised by the file name's suffix.
use vstd::prelude::*;
use crate::text::{
    ascii_lower, chars_of, contains_exec, contains_seq, ends_with, ends_with_exec, is_ascii_seq, to_lowercase,
    unicode_lowercase,
};

verus! {

broadcast use vstd::string::group_string_axioms;

#[derive(Debug, Clone, Copy, PartialEq, Eq, Structural)]
pub enum CompressionFormat {
    Tar,
    TarGz,
    TarXz,
    Zip,
    SevenZ,
    NotCompressed,
}

/// The format that a lower-cased path names by its suffix.
pub open spec fn format_of_lower(p: Seq<char>) -> CompressionFormat {
    if ends_with(p, ".tar.gz"@) || ends_with(p, ".tgz"@) {
        CompressionFormat::TarGz
    } else if ends_with(p, ".tar.xz"@) || ends_with(p, ".txz"@) {
        CompressionFormat::TarXz
    } else if ends_with(p, ".tar"@) {
        CompressionFormat::Tar
    } else if ends_with(p, ".zip"@) {
        CompressionFormat::Zip
    } else if ends_with(p, ".7z"@) {
        CompressionFormat::SevenZ
    } else {
        CompressionFormat::NotCompressed
    }
}

fn has_suffix(p: &[char], suffix: &str) -> (b: bool)
    ensures
        b == ends_with(p@, suffix@),
{
    let s = chars_of(suffix);
    ends_with_exec(p, s.as_slice())
}

impl CompressionFormat {
    /// The archive format of a path, judged by its suffix, case-insensitively.
    pub fn from_path(path: &str) -> (r: CompressionFormat)
        ensures
            r == format_of_lower(unicode_lowercase(path@)),
            is_ascii_seq(path@) ==> r == format_of_lower(ascii_lower(path@)),
    {
        let lower = to_lowercase(path);
        let p = chars_of(lower.as_str());
        let p = p.as_slice();
        if has_suffix(p, ".tar.gz") || has_suffix(p, ".tgz") {
            CompressionFormat::TarGz
        } else if has_suffix(p, ".tar.xz") || has_suffix(p, ".txz") {
            CompressionFormat::TarXz
        } else if has_suffix(p, ".tar") {
            CompressionFormat::Tar
        } else if has_suffix(p, ".zip") {
            CompressionFormat::Zip
        } else if has_suffix(p, ".7z") {
            CompressionFormat::SevenZ
        } else {
            CompressionFormat::NotCompressed
        }
    }
}

/// A file that an archive's log may be: by its lower-cased name, a CSV,
/// log or text file, or one whose name mentions a trace.
pub open spec fn log_name_lower(n: Seq<char>) -> bool {
    ends_with(n, ".csv"@) || ends_with(n, ".log"@) || ends_with(n, ".txt"@) || contains_seq(n, "trace"@)
        || contains_seq(n, "blktrace"@)
}

/// Whether a file name (compared case-insensitively) marks a log file.
pub fn is_log_file_name(name: &str) -> (b: bool)
    ensures
        b == log_name_lower(unicode_lowercase(name@)),
        is_ascii_seq(name@) ==> b == log_name_lower(ascii_lower(name@)),
{
    let lower = to_lowercase(name);
    let p = chars_of(lower.as_str());
    let p = p.as_slice();
    has_suffix(p, ".csv") || has_suffix(p, ".log") || has_suffix(p, ".txt") || contains_exec(
        p,
        chars_of("trace").as_slice(),
    ) || contains_exec(p, chars_of("blktrace").as_slice())
}

/// Among candidate files of the given sizes, the one taken as the log: the
/// largest, and of equally large ones the last (the last after a stable
/// sort by size).
pub fn choose_log_file(sizes: &[u64]) -> (r: Option<usize>)
    ensures
        match r {
            Some(i) => i < sizes@.len() && (forall|j: int| 0 <= j < i ==> #[trigger] sizes@[j] <= sizes@[i as int])
                && (forall|j: int| i < j < sizes@.len() ==> #[trigger] sizes@[j] < sizes@[i as int]),
            None => sizes@.len() == 0,
        },
{
    if sizes.len() == 0 {
        return None;
    }
    let mut best: usize = 0;
    let mut i: usize = 1;
    while i < sizes.len()
        invariant
            1 <= i <= sizes@.len(),
            best < i,
            forall|j: int| 0 <= j < best ==> #[trigger] sizes@[j] <= sizes@[best as int],
            forall|j: int| best < j < i ==> #[trigger] sizes@[j] < sizes@[best as int],
        decreases sizes@.len() - i,
    {
        if sizes[i] >= sizes[best] {
            best = i;
        }
        i = i + 1;
    }
    Some(best)
}

} // verus!
