//! Recognition of the subtitle formats this library understands.
use vstd::prelude::*;

verus! {

/// Subtitle formats that can be handled.
#[derive(Debug, Clone, Copy, PartialEq, Eq)]
pub enum SubFormat {
    /// `SubRip`, which uses the `.srt` extension.
    SubRip,
}

/// Holds when `ext` is the file extension of a `SubRip` file.
pub open spec fn is_subrip_extension(ext: Seq<char>) -> bool {
    ext == seq!['s', 'r', 't']
}

/// The format of a file, judged from its extension (the text after the last dot).
pub fn subtitle_format(extension: &str) -> (r: Option<SubFormat>)
    ensures
        r == (if is_subrip_extension(extension@) { Some(SubFormat::SubRip) } else { None }),
{
    let n = extension.unicode_len();
    if n == 3 && extension.get_char(0) == 's' && extension.get_char(1) == 'r'
        && extension.get_char(2) == 't' {
        assert(extension@ =~= seq!['s', 'r', 't']);
        Some(SubFormat::SubRip)
    } else {
        None
    }
}

} // verus!
