//! Output assembly: the single UTF-8 text blob made of the rendered tree,
//! a blank line, and one section per included file — a header line
//! followed by the file's content or a bracketed skip notice.

use vstd::prelude::*;

use crate::text::dec_chars;
use crate::text::format_u64;

verus! {

/// What one included file contributes below its header: its textual
/// content, or the reason its content was skipped.
pub enum FileContent {
    /// The file's full textual content.
    Text(String),
    /// The file is excluded by a pattern.
    SkippedExcluded,
    /// The file's size exceeds the configured limit.
    SkippedTooLarge { size: u64, limit: u64 },
    /// The file could not be read as text.
    SkippedBinary,
}

/// One per-file section of the output: the path shown in the header and
/// what stands below it.
pub struct FileSection {
    pub path: String,
    pub content: FileContent,
}

/// The text below one section header: the content or a bracketed skip
/// notice, followed by a blank line.
pub open spec fn section_body(c: FileContent) -> Seq<char> {
    match c {
        FileContent::Text(s) => s@ + "\n\n"@,
        FileContent::SkippedExcluded => "<skipped: excluded by pattern>\n\n"@,
        FileContent::SkippedTooLarge { size, limit } => "<skipped: file size "@ + dec_chars(
            size as nat,
        ) + " bytes exceeds --max-file-bytes "@ + dec_chars(limit as nat) + ">\n\n"@,
        FileContent::SkippedBinary => "<skipped: binary file>\n\n"@,
    }
}

/// One whole section: the header line naming the path, then the body.
pub open spec fn section_text(s: FileSection) -> Seq<char> {
    "--- "@ + s.path@ + " ---\n"@ + section_body(s.content)
}

/// All sections in order.
pub open spec fn sections_text(sections: Seq<FileSection>) -> Seq<char>
    decreases sections.len(),
{
    if sections.len() == 0 {
        seq![]
    } else {
        sections_text(sections.drop_last()) + section_text(sections.last())
    }
}

/// The whole output blob: the rendered tree, a blank line, then every
/// section.
pub open spec fn spec_output(tree: Seq<char>, sections: Seq<FileSection>) -> Seq<char> {
    tree + "\n"@ + sections_text(sections)
}

/// Whether a file's size exceeds the configured limit; a limit of 0
/// disables the check.
pub fn exceeds_size_limit(size: u64, max_file_bytes: u64) -> (r: bool)
    ensures
        r == (max_file_bytes > 0 && size > max_file_bytes),
{
    max_file_bytes > 0 && size > max_file_bytes
}

/// Assembles the output blob: the rendered tree text, a blank line, and
/// one header-plus-body section per included file.
pub fn assemble_output(tree_text: &str, sections: &Vec<FileSection>) -> (r: String)
    ensures
        r@ == spec_output(tree_text@, sections@),
{
    let mut out = tree_text.to_owned();
    out.append("\n");
    let mut i: usize = 0;
    proof {
        assert(sections@.take(0) =~= Seq::<FileSection>::empty());
    }
    while i < sections.len()
        invariant
            i <= sections@.len(),
            out@ == tree_text@ + "\n"@ + sections_text(sections@.take(i as int)),
        decreases sections@.len() - i,
    {
        let section = &sections[i];
        out.append("--- ");
        out.append(section.path.as_str());
        out.append(" ---\n");
        match &section.content {
            FileContent::Text(s) => {
                out.append(s.as_str());
                out.append("\n\n");
            },
            FileContent::SkippedExcluded => {
                out.append("<skipped: excluded by pattern>\n\n");
            },
            FileContent::SkippedTooLarge { size, limit } => {
                out.append("<skipped: file size ");
                let size_text = format_u64(*size);
                out.append(size_text.as_str());
                out.append(" bytes exceeds --max-file-bytes ");
                let limit_text = format_u64(*limit);
                out.append(limit_text.as_str());
                out.append(">\n\n");
            },
            FileContent::SkippedBinary => {
                out.append("<skipped: binary file>\n\n");
            },
        }
        proof {
            assert(sections@.take(i + 1).drop_last() =~= sections@.take(i as int));
            assert(sections@.take(i + 1).last() == sections@[i as int]);
        }
        i = i + 1;
    }
    proof {
        assert(sections@.take(sections@.len() as int) =~= sections@);
    }
    out
}

} // verus!
