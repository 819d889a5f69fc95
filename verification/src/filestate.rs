use vstd::prelude::*;
use vstd::string::StringExecFns;
use vstd::utf8::{decode_utf8, valid_utf8};
use file_type::FileType;
use crate::notation::{
    board_drawing, cell_line, scan_board, scan_cells, try_from_board_string, try_from_cell_string,
};
use crate::player::Player;
use crate::text::{from_utf8, replace, replaced, skip, starts_with, to_chars, trim, trimmed};

verus! {

/// Why the content of a state file gave no cells.
#[derive(Debug, Clone, Copy, PartialEq, Eq, Structural)]
pub enum FileError {
    /// The content is not plain text.
    UnknownFormat,
    /// The text begins with neither of the two headers.
    UnknownBoardStyle,
    /// The bytes are no UTF-8.
    InvalidUtf8,
    /// What follows the header is no square board.
    InvalidBoard,
}

impl FileError {
    /// The name of the error.
    pub fn to_string(&self) -> (r: String)
        ensures
            r@ == self.text(),
    {
        match self {
            FileError::UnknownFormat => String::from_str("UnknownFormat"),
            FileError::UnknownBoardStyle => String::from_str("UnknownBoardStyle"),
            FileError::InvalidUtf8 => String::from_str("InvalidUtf8"),
            FileError::InvalidBoard => String::from_str("InvalidBoard"),
        }
    }

    /// The name of the error.
    pub open spec fn text(self) -> Seq<char> {
        match self {
            FileError::UnknownFormat => "UnknownFormat"@,
            FileError::UnknownBoardStyle => "UnknownBoardStyle"@,
            FileError::InvalidUtf8 => "InvalidUtf8"@,
            FileError::InvalidBoard => "InvalidBoard"@,
        }
    }
}

/// The cells of a board, or why there are none.
pub type Cells = Result<Seq<Option<Player>>, FileError>;

/// The content of what a reading function returned.
pub open spec fn content(r: Result<Vec<Option<Player>>, FileError>) -> Cells {
    match r {
        Ok(cells) => Ok(cells@),
        Err(e) => Err(e),
    }
}

/// What a parsed notation gives: its cells, or `InvalidBoard`.
pub open spec fn cells_or_invalid(parsed: Option<Seq<Option<Player>>>) -> Cells {
    match parsed {
        Some(cells) => Ok(cells),
        None => Err(FileError::InvalidBoard),
    }
}

/// The cells that a text file holds. Line ends of two characters count
/// as one. Behind the header `<board>` stands a drawing, behind `<cells>`
/// a cell line, each with white space around it.
pub open spec fn text_cells(bytes: Seq<u8>) -> Cells {
    if !valid_utf8(bytes) {
        Err(FileError::InvalidUtf8)
    } else {
        let contents = replaced(decode_utf8(bytes), "\r\n"@, "\n"@);
        if "<board>"@.is_prefix_of(contents) {
            cells_or_invalid(board_drawing(trimmed(contents.skip("<board>"@.len() as int))))
        } else if "<cells>"@.is_prefix_of(contents) {
            cells_or_invalid(cell_line(trimmed(contents.skip("<cells>"@.len() as int))))
        } else {
            Err(FileError::UnknownBoardStyle)
        }
    }
}

/// The cells of a file of the given media types: those of its text where
/// it is plain text and nothing else, `UnknownFormat` otherwise.
pub open spec fn typed_cells(media_types: Seq<Seq<char>>, bytes: Seq<u8>) -> Cells {
    if media_types.len() == 1 && media_types[0] == "text/plain"@ {
        text_cells(bytes)
    } else {
        Err(FileError::UnknownFormat)
    }
}

/// The media types that `FileType::from_bytes` finds for the bytes.
pub uninterp spec fn detected_media_types(bytes: Seq<u8>) -> Seq<Seq<char>>;

/// The texts of a list of strings.
pub open spec fn texts(list: Seq<String>) -> Seq<Seq<char>> {
    Seq::new(list.len(), |i: int| list[i]@)
}

/// The media types of the file type that `FileType::from_bytes` detects
/// in the bytes, as `FileType::media_types` lists them. The detection
/// looks at the bytes alone.
#[verifier::external_body]
fn media_types(bytes: &Vec<u8>) -> (r: Vec<String>)
    ensures
        texts(r@) == detected_media_types(bytes@),
{
    FileType::from_bytes(bytes).media_types().iter().map(|t| t.to_string()).collect()
}

/// The cells that the content of a state file holds.
pub fn cells_from_bytes(buffer: Vec<u8>) -> (r: Result<Vec<Option<Player>>, FileError>)
    ensures
        content(r) == typed_cells(detected_media_types(buffer@), buffer@),
{
    let found = media_types(&buffer);
    cells_of_kind(&found, buffer)
}

/// The cells that the content of a state file of the given media types
/// holds.
pub fn cells_of_kind(media_types: &Vec<String>, buffer: Vec<u8>) -> (r: Result<
    Vec<Option<Player>>,
    FileError,
>)
    ensures
        content(r) == typed_cells(texts(media_types@), buffer@),
{
    if media_types.len() == 1 {
        let plain = String::from_str("text/plain");
        if media_types[0] == plain {
            return from_text(buffer);
        }
    }
    Err(FileError::UnknownFormat)
}

/// The cells that a text file holds.
pub fn from_text(buffer: Vec<u8>) -> (r: Result<Vec<Option<Player>>, FileError>)
    ensures
        content(r) == text_cells(buffer@),
{
    proof {
        reveal_strlit("\r\n");
    }
    let text = match from_utf8(buffer) {
        Ok(text) => text,
        Err(_) => {
            return Err(FileError::InvalidUtf8);
        },
    };
    let contents = replace(&to_chars(text.as_str()), &to_chars("\r\n"), &to_chars("\n"));
    let board_header = to_chars("<board>");
    if starts_with(&contents, &board_header) {
        let rest = skip(&contents, board_header.len());
        return match scan_board(&trim(&rest)) {
            Some(cells) => Ok(cells),
            None => Err(FileError::InvalidBoard),
        };
    }
    let cells_header = to_chars("<cells>");
    if starts_with(&contents, &cells_header) {
        let rest = skip(&contents, cells_header.len());
        return match scan_cells(&trim(&rest)) {
            Some(cells) => Ok(cells),
            None => Err(FileError::InvalidBoard),
        };
    }
    Err(FileError::UnknownBoardStyle)
}

/// The cells of a cell line with white space around it.
pub fn from_text_cells(cell_string: &str) -> (r: Result<Vec<Option<Player>>, FileError>)
    ensures
        content(r) == cells_or_invalid(cell_line(trimmed(cell_string@))),
{
    match try_from_cell_string(cell_string) {
        Some(cells) => Ok(cells),
        None => Err(FileError::InvalidBoard),
    }
}

/// The cells of a drawing with white space around it.
pub fn from_text_board(board: &str) -> (r: Result<Vec<Option<Player>>, FileError>)
    ensures
        content(r) == cells_or_invalid(board_drawing(trimmed(board@))),
{
    match try_from_board_string(board) {
        Some(cells) => Ok(cells),
        None => Err(FileError::InvalidBoard),
    }
}

/// The cells of a picture of a board: no picture is read yet, every
/// picture gives no cells.
pub fn from_image(_buffer: Vec<u8>) -> (r: Result<Vec<Option<Player>>, FileError>)
    ensures
        content(r) == Ok::<Seq<Option<Player>>, FileError>(Seq::empty()),
{
    Ok(Vec::new())
}

} // verus!
