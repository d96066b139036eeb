//! The content listing: one block for each file, a framed header and then
//! the file's text.

use vstd::prelude::*;
use vstd::string::StringExecFns;
use crate::paths::{path_text, RelPath};
use crate::text::{trim, trimmed};

verus! {

/// The width of the separator lines that frame a file header.
pub const SEPARATOR_WIDTH: usize = 60;

/// A separator line without its line end: `=`, `SEPARATOR_WIDTH` times.
pub open spec fn separator() -> Seq<char> {
    Seq::new(SEPARATOR_WIDTH as nat, |i: int| '=')
}

/// What stands for a file's text that could not be had: the reason, marked
/// as such.
pub open spec fn placeholder(reason: Seq<char>) -> Seq<char> {
    "[Could not read file: "@ + reason + "]"@
}

/// The body of a block: the text without the white space around it, or the
/// placeholder where reading failed.
pub open spec fn block_body(text: Result<Seq<char>, Seq<char>>) -> Seq<char> {
    match text {
        Ok(t) => trimmed(t),
        Err(reason) => placeholder(reason),
    }
}

/// The block of one file: separator, header with the path, separator, body,
/// and two blank lines.
pub open spec fn file_block(path: Seq<Seq<char>>, text: Result<Seq<char>, Seq<char>>) -> Seq<
    char,
> {
    separator() + "\n"@ + "FILE: "@ + path_text(path) + "\n"@ + separator() + "\n"@ + block_body(
        text,
    ) + "\n\n\n"@
}

/// A file of the content listing with what reading it gave: its text, or a
/// description of the failure.
#[derive(Debug, PartialEq, Eq)]
pub struct FileContent {
    pub path: RelPath,
    pub text: Result<String, String>,
}

/// What a `FileContent` stands for.
pub struct ContentModel {
    pub path: Seq<Seq<char>>,
    pub text: Result<Seq<char>, Seq<char>>,
}

impl View for FileContent {
    type V = ContentModel;

    open spec fn view(&self) -> ContentModel {
        ContentModel {
            path: self.path@,
            text: match self.text {
                Ok(t) => Ok(t@),
                Err(reason) => Err(reason@),
            },
        }
    }
}

/// What a list of file contents stands for, in the same order.
pub open spec fn content_views(files: Seq<FileContent>) -> Seq<ContentModel> {
    Seq::new(files.len(), |i: int| files[i]@)
}

/// The blocks of the given files, one after the other.
pub open spec fn content_text(files: Seq<ContentModel>) -> Seq<char>
    decreases files.len(),
{
    if files.len() == 0 {
        Seq::empty()
    } else {
        content_text(files.drop_last()) + file_block(files.last().path, files.last().text)
    }
}

/// A separator line without its line end.
pub fn separator_line() -> (line: String)
    ensures
        line@ == separator(),
{
    let mut line = String::new();
    let mut i: usize = 0;
    while i < SEPARATOR_WIDTH
        invariant
            i <= SEPARATOR_WIDTH,
            line@ == Seq::new(i as nat, |k: int| '='),
        decreases SEPARATOR_WIDTH - i,
    {
        line.append("=");
        proof {
            reveal_strlit("=");
        }
        i = i + 1;
    }
    line
}

/// Appends the block of one file to `output`. A file that could not be read
/// gets a placeholder that names the reason; it does not stop the run.
pub fn append_block(output: &mut String, file: &FileContent)
    ensures
        final(output)@ == old(output)@ + file_block(file@.path, file@.text),
{
    let line = separator_line();
    let path = file.path.text();
    output.append(line.as_str());
    output.append("\n");
    output.append("FILE: ");
    output.append(path.as_str());
    output.append("\n");
    output.append(line.as_str());
    output.append("\n");
    match &file.text {
        Ok(text) => {
            let body = trim(text.as_str());
            output.append(body.as_str());
        },
        Err(reason) => {
            output.append("[Could not read file: ");
            output.append(reason.as_str());
            output.append("]");
        },
    }
    output.append("\n\n\n");
}

/// The block of one file.
pub fn render_block(file: &FileContent) -> (block: String)
    ensures
        block@ == file_block(file@.path, file@.text),
{
    let mut block = String::new();
    append_block(&mut block, file);
    block
}

/// The content listing: the blocks of the given files in the given order.
pub fn render_contents(files: &Vec<FileContent>) -> (contents: String)
    ensures
        contents@ == content_text(content_views(files@)),
{
    let ghost models = content_views(files@);
    let mut contents = String::new();
    let n = files.len();
    let mut i: usize = 0;
    while i < n
        invariant
            n == files.len(),
            models == content_views(files@),
            i <= n,
            contents@ == content_text(models.take(i as int)),
        decreases n - i,
    {
        append_block(&mut contents, &files[i]);
        proof {
            let upto = models.take(i + 1);
            assert(upto.drop_last() =~= models.take(i as int));
        }
        i = i + 1;
    }
    assert(models.take(n as int) =~= models);
    contents
}

} // verus!
