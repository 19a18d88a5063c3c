//! The typed values that pass between a document and its callers.

use vstd::prelude::*;
use vstd::string::*;

verus! {

/// The name and the output encoding's name of the encoding that a label stands for.
pub uninterp spec fn label_encoding(label: Seq<char>) -> Option<(Seq<char>, Seq<char>)>;

/// `encoding_rs::Encoding::for_label`, with the `name` of the encoding found and the `name`
/// of its `output_encoding`. The result depends on the label alone. The output encoding of
/// UTF-8 is UTF-8 itself: only the replacement encoding and UTF-16 have another one.
#[verifier::external_body]
fn lookup_label(label: &str) -> (found: Option<(&'static str, &'static str)>)
    ensures
        match found {
            Some((name, output)) => {
                &&& label_encoding(label@) == Some((name@, output@))
                &&& name@ == "UTF-8"@ ==> output@ == "UTF-8"@
            },
            None => label_encoding(label@) is None,
        },
{
    encoding_rs::Encoding::for_label(label.as_bytes()).map(
        |encoding| (encoding.name(), encoding.output_encoding().name()),
    )
}

/// Tells whether two texts are the same.
pub fn same_text(a: &str, b: &str) -> (same: bool)
    ensures
        same == (a@ == b@),
{
    let x = a.as_bytes();
    let y = b.as_bytes();
    proof {
        if a.spec_bytes() == b.spec_bytes() {
            vstd::utf8::encode_utf8_decode_utf8(a@);
            vstd::utf8::encode_utf8_decode_utf8(b@);
        }
    }
    if x.len() != y.len() {
        return false;
    }
    let mut i: usize = 0;
    while i < x.len()
        invariant
            i <= x@.len() == y@.len(),
            x@ == a.spec_bytes(),
            y@ == b.spec_bytes(),
            x@.take(i as int) =~= y@.take(i as int),
        decreases x@.len() - i,
    {
        if x[i] != y[i] {
            assert(x@[i as int] != y@[i as int]);
            return false;
        }
        i = i + 1;
        assert(x@.take(i as int) =~= y@.take(i as int)) by {
            assert(x@.take(i as int) =~= x@.take(i - 1).push(x@[i - 1]));
            assert(y@.take(i as int) =~= y@.take(i - 1).push(y@[i - 1]));
        }
    }
    assert(x@ =~= y@) by {
        assert(x@.take(i as int) =~= x@);
        assert(y@.take(i as int) =~= y@);
    }
    true
}

/// A text encoding, known by its name and by the name of the encoding that saves use for it.
#[derive(Clone, Copy, Debug, PartialEq, Eq, Hash)]
pub struct DocumentEncoding {
    pub(crate) name: &'static str,
    pub(crate) output_name: &'static str,
}

impl View for DocumentEncoding {
    type V = (Seq<char>, Seq<char>);

    closed spec fn view(&self) -> (Seq<char>, Seq<char>) {
        (self.name@, self.output_name@)
    }
}

impl DocumentEncoding {
    /// UTF-8 is saved as UTF-8.
    pub open spec fn wf(self) -> bool {
        self.spec_is_utf8() ==> self.spec_can_roundtrip_save()
    }

    #[verifier::type_invariant]
    spec fn inv(self) -> bool {
        self.wf()
    }

    /// UTF-8.
    pub fn utf8() -> (encoding: DocumentEncoding)
        ensures
            encoding@ == ("UTF-8"@, "UTF-8"@),
    {
        DocumentEncoding { name: "UTF-8", output_name: "UTF-8" }
    }

    /// UTF-16, little endian.
    pub fn utf16le() -> (encoding: DocumentEncoding)
        ensures
            encoding@ == ("UTF-16LE"@, "UTF-8"@),
    {
        DocumentEncoding { name: "UTF-16LE", output_name: "UTF-8" }
    }

    /// UTF-16, big endian.
    pub fn utf16be() -> (encoding: DocumentEncoding)
        ensures
            encoding@ == ("UTF-16BE"@, "UTF-8"@),
    {
        DocumentEncoding { name: "UTF-16BE", output_name: "UTF-8" }
    }

    /// Looks up an encoding by one of its labels.
    pub fn from_label(label: &str) -> (encoding: Option<DocumentEncoding>)
        ensures
            match label_encoding(label@) {
                Some(view) => encoding is Some && encoding->Some_0@ == view
                    && encoding->Some_0.wf(),
                None => encoding is None,
            },
    {
        match lookup_label(label) {
            Some((name, output_name)) => Some(DocumentEncoding { name, output_name }),
            None => None,
        }
    }

    pub fn name(self) -> (name: &'static str)
        ensures
            name@ == self@.0,
    {
        self.name
    }

    /// `true` for UTF-8.
    pub open spec fn spec_is_utf8(self) -> bool {
        self@.0 == "UTF-8"@
    }

    pub fn is_utf8(self) -> (utf8: bool)
        ensures
            utf8 == self.spec_is_utf8(),
    {
        same_text(self.name, "UTF-8")
    }

    /// `true` where text in this encoding is saved in this encoding.
    pub open spec fn spec_can_roundtrip_save(self) -> bool {
        self@.0 == self@.1
    }

    pub fn can_roundtrip_save(self) -> (can: bool)
        ensures
            can == self.spec_can_roundtrip_save(),
    {
        same_text(self.name, self.output_name)
    }
}

impl Default for DocumentEncoding {
    fn default() -> (encoding: DocumentEncoding)
        ensures
            encoding@ == ("UTF-8"@, "UTF-8"@),
    {
        DocumentEncoding::utf8()
    }
}

/// How the encoding of a document was chosen.
#[derive(Clone, Copy, Debug, PartialEq, Eq, Hash, Structural)]
pub enum DocumentEncodingOrigin {
    NewDocument,
    Utf8FastPath,
    AutoDetected,
    AutoDetectFallbackUtf8,
    AutoDetectFallbackOverride,
    ExplicitReinterpretation,
    SaveConversion,
}

impl Default for DocumentEncodingOrigin {
    fn default() -> (origin: DocumentEncodingOrigin)
        ensures
            origin == DocumentEncodingOrigin::NewDocument,
    {
        DocumentEncodingOrigin::NewDocument
    }
}

impl DocumentEncodingOrigin {
    pub open spec fn spec_as_str(self) -> &'static str {
        match self {
            DocumentEncodingOrigin::NewDocument => "new-document",
            DocumentEncodingOrigin::Utf8FastPath => "utf8-fast-path",
            DocumentEncodingOrigin::AutoDetected => "auto-detected",
            DocumentEncodingOrigin::AutoDetectFallbackUtf8 => "auto-detect-fallback-utf8",
            DocumentEncodingOrigin::AutoDetectFallbackOverride => "auto-detect-fallback-override",
            DocumentEncodingOrigin::ExplicitReinterpretation => "explicit-reinterpretation",
            DocumentEncodingOrigin::SaveConversion => "save-conversion",
        }
    }

    /// A stable name for logs and settings.
    pub fn as_str(self) -> (text: &'static str)
        ensures
            text@ == self.spec_as_str()@,
    {
        match self {
            DocumentEncodingOrigin::NewDocument => "new-document",
            DocumentEncodingOrigin::Utf8FastPath => "utf8-fast-path",
            DocumentEncodingOrigin::AutoDetected => "auto-detected",
            DocumentEncodingOrigin::AutoDetectFallbackUtf8 => "auto-detect-fallback-utf8",
            DocumentEncodingOrigin::AutoDetectFallbackOverride => "auto-detect-fallback-override",
            DocumentEncodingOrigin::ExplicitReinterpretation => "explicit-reinterpretation",
            DocumentEncodingOrigin::SaveConversion => "save-conversion",
        }
    }

    /// `true` where the source was inspected to find the encoding.
    pub open spec fn spec_used_auto_detection(self) -> bool {
        self is AutoDetected || self is AutoDetectFallbackUtf8 || self is AutoDetectFallbackOverride
    }

    /// `true` where the caller named the encoding.
    pub open spec fn spec_is_explicit(self) -> bool {
        self is AutoDetectFallbackOverride || self is ExplicitReinterpretation
            || self is SaveConversion
    }

    /// `true` where the source was inspected to find the encoding.
    pub fn used_auto_detection(self) -> (used: bool)
        ensures
            used == self.spec_used_auto_detection(),
    {
        match self {
            DocumentEncodingOrigin::AutoDetected
            | DocumentEncodingOrigin::AutoDetectFallbackUtf8
            | DocumentEncodingOrigin::AutoDetectFallbackOverride => true,
            _ => false,
        }
    }

    /// `true` where the caller named the encoding.
    pub fn is_explicit(self) -> (explicit: bool)
        ensures
            explicit == self.spec_is_explicit(),
    {
        match self {
            DocumentEncodingOrigin::AutoDetectFallbackOverride
            | DocumentEncodingOrigin::ExplicitReinterpretation
            | DocumentEncodingOrigin::SaveConversion => true,
            _ => false,
        }
    }
}

/// How the encoding of an opened file is chosen.
#[derive(Clone, Copy, Debug, PartialEq, Eq, Hash)]
pub enum OpenEncodingPolicy {
    Utf8FastPath,
    AutoDetect,
    AutoDetectOrReinterpret(DocumentEncoding),
    Reinterpret(DocumentEncoding),
}

impl Default for OpenEncodingPolicy {
    fn default() -> (policy: OpenEncodingPolicy)
        ensures
            policy is Utf8FastPath,
    {
        OpenEncodingPolicy::Utf8FastPath
    }
}

/// Options for opening a document.
#[derive(Clone, Copy, Debug, PartialEq, Eq, Hash)]
pub struct DocumentOpenOptions {
    pub encoding_policy: OpenEncodingPolicy,
}

impl Default for DocumentOpenOptions {
    fn default() -> (options: DocumentOpenOptions)
        ensures
            options.encoding_policy is Utf8FastPath,
    {
        DocumentOpenOptions::new()
    }
}

impl DocumentOpenOptions {
    /// Options that read the file as UTF-8.
    pub fn new() -> (options: DocumentOpenOptions)
        ensures
            options.encoding_policy is Utf8FastPath,
    {
        DocumentOpenOptions { encoding_policy: OpenEncodingPolicy::Utf8FastPath }
    }

    pub fn with_auto_encoding_detection(self) -> (options: DocumentOpenOptions)
        ensures
            options.encoding_policy is AutoDetect,
    {
        DocumentOpenOptions { encoding_policy: OpenEncodingPolicy::AutoDetect }
    }

    pub fn with_auto_encoding_detection_and_fallback(self, encoding: DocumentEncoding) -> (options:
        DocumentOpenOptions)
        ensures
            options.encoding_policy == OpenEncodingPolicy::AutoDetectOrReinterpret(encoding),
    {
        DocumentOpenOptions {
            encoding_policy: OpenEncodingPolicy::AutoDetectOrReinterpret(encoding),
        }
    }

    pub fn with_reinterpretation(self, encoding: DocumentEncoding) -> (options: DocumentOpenOptions)
        ensures
            options.encoding_policy == OpenEncodingPolicy::Reinterpret(encoding),
    {
        DocumentOpenOptions { encoding_policy: OpenEncodingPolicy::Reinterpret(encoding) }
    }

    pub fn with_encoding(self, encoding: DocumentEncoding) -> (options: DocumentOpenOptions)
        ensures
            options.encoding_policy == OpenEncodingPolicy::Reinterpret(encoding),
    {
        DocumentOpenOptions { encoding_policy: OpenEncodingPolicy::Reinterpret(encoding) }
    }

    pub fn encoding_policy(self) -> (policy: OpenEncodingPolicy)
        ensures
            policy == self.encoding_policy,
    {
        self.encoding_policy
    }

    /// The encoding that the caller named, if any.
    pub open spec fn spec_encoding_override(self) -> Option<DocumentEncoding> {
        match self.encoding_policy {
            OpenEncodingPolicy::Reinterpret(named) => Some(named),
            OpenEncodingPolicy::AutoDetectOrReinterpret(named) => Some(named),
            _ => None,
        }
    }

    /// The encoding that the caller named, if any.
    pub fn encoding_override(self) -> (encoding: Option<DocumentEncoding>)
        ensures
            encoding == self.spec_encoding_override(),
    {
        match self.encoding_policy {
            OpenEncodingPolicy::Reinterpret(encoding) => Some(encoding),
            OpenEncodingPolicy::AutoDetectOrReinterpret(encoding) => Some(encoding),
            _ => None,
        }
    }
}

/// Which encoding a save writes.
#[derive(Clone, Copy, Debug, PartialEq, Eq, Hash)]
pub enum SaveEncodingPolicy {
    Preserve,
    Convert(DocumentEncoding),
}

impl Default for SaveEncodingPolicy {
    fn default() -> (policy: SaveEncodingPolicy)
        ensures
            policy is Preserve,
    {
        SaveEncodingPolicy::Preserve
    }
}

/// Options for saving a document.
#[derive(Clone, Copy, Debug, PartialEq, Eq, Hash)]
pub struct DocumentSaveOptions {
    pub encoding_policy: SaveEncodingPolicy,
}

impl Default for DocumentSaveOptions {
    fn default() -> (options: DocumentSaveOptions)
        ensures
            options.encoding_policy is Preserve,
    {
        DocumentSaveOptions::new()
    }
}

impl DocumentSaveOptions {
    /// Options that keep the document's encoding.
    pub fn new() -> (options: DocumentSaveOptions)
        ensures
            options.encoding_policy is Preserve,
    {
        DocumentSaveOptions { encoding_policy: SaveEncodingPolicy::Preserve }
    }

    pub fn with_encoding(self, encoding: DocumentEncoding) -> (options: DocumentSaveOptions)
        ensures
            options.encoding_policy == SaveEncodingPolicy::Convert(encoding),
    {
        DocumentSaveOptions { encoding_policy: SaveEncodingPolicy::Convert(encoding) }
    }

    pub fn encoding_policy(self) -> (policy: SaveEncodingPolicy)
        ensures
            policy == self.encoding_policy,
    {
        self.encoding_policy
    }
}

/// The bytes that separate lines.
#[derive(Clone, Copy, Debug, PartialEq, Eq, Hash, Structural)]
pub enum LineEnding {
    Lf,
    Crlf,
    Cr,
}

impl LineEnding {
    pub open spec fn spec_as_str(self) -> &'static str {
        match self {
            LineEnding::Lf => "\n",
            LineEnding::Crlf => "\r\n",
            LineEnding::Cr => "\r",
        }
    }

    pub fn as_str(self) -> (text: &'static str)
        ensures
            text@ == self.spec_as_str()@,
    {
        match self {
            LineEnding::Lf => "\n",
            LineEnding::Crlf => "\r\n",
            LineEnding::Cr => "\r",
        }
    }
}

/// Part of a line, and whether it is known to be what the line holds there.
#[derive(Clone, Debug, PartialEq, Eq)]
pub struct LineSlice {
    pub text: String,
    pub exact: bool,
}

impl Default for LineSlice {
    fn default() -> (slice: LineSlice)
        ensures
            slice.text@ == Seq::<char>::empty(),
            !slice.exact,
    {
        LineSlice { text: String::new(), exact: false }
    }
}

impl LineSlice {
    pub fn new(text: String, exact: bool) -> (slice: LineSlice)
        ensures
            slice.text == text,
            slice.exact == exact,
    {
        LineSlice { text, exact }
    }

    pub fn text(&self) -> (text: &str)
        ensures
            text@ == self.text@,
    {
        self.text.as_str()
    }

    pub fn into_text(self) -> (text: String)
        ensures
            text == self.text,
    {
        self.text
    }

    pub fn is_exact(&self) -> (exact: bool)
        ensures
            exact == self.exact,
    {
        self.exact
    }

    pub fn is_empty(&self) -> (empty: bool)
        ensures
            empty == (self.text@.len() == 0),
    {
        self.text.as_str().is_empty()
    }
}

/// Part of a text, and whether it is known to be what the text holds there.
#[derive(Clone, Debug, PartialEq, Eq)]
pub struct TextSlice {
    pub text: String,
    pub exact: bool,
}

impl Default for TextSlice {
    fn default() -> (slice: TextSlice)
        ensures
            slice.text@ == Seq::<char>::empty(),
            !slice.exact,
    {
        TextSlice { text: String::new(), exact: false }
    }
}

impl TextSlice {
    pub fn new(text: String, exact: bool) -> (slice: TextSlice)
        ensures
            slice.text == text,
            slice.exact == exact,
    {
        TextSlice { text, exact }
    }

    pub fn text(&self) -> (text: &str)
        ensures
            text@ == self.text@,
    {
        self.text.as_str()
    }

    pub fn into_text(self) -> (text: String)
        ensures
            text == self.text,
    {
        self.text
    }

    pub fn is_exact(&self) -> (exact: bool)
        ensures
            exact == self.exact,
    {
        self.exact
    }

    pub fn is_empty(&self) -> (empty: bool)
        ensures
            empty == (self.text@.len() == 0),
    {
        self.text.as_str().is_empty()
    }
}

/// A place in a text: a line and a column in it, both counted from zero.
#[derive(Clone, Copy, Debug, PartialEq, Eq, PartialOrd, Ord, Hash, Structural)]
pub struct TextPosition {
    pub line0: usize,
    pub col0: usize,
}

impl Default for TextPosition {
    fn default() -> (position: TextPosition)
        ensures
            position == (TextPosition { line0: 0, col0: 0 }),
    {
        TextPosition { line0: 0, col0: 0 }
    }
}

impl TextPosition {
    pub fn new(line0: usize, col0: usize) -> (position: TextPosition)
        ensures
            position == (TextPosition { line0, col0 }),
    {
        TextPosition { line0, col0 }
    }

    pub fn line0(self) -> (line0: usize)
        ensures
            line0 == self.line0,
    {
        self.line0
    }

    pub fn col0(self) -> (col0: usize)
        ensures
            col0 == self.col0,
    {
        self.col0
    }

    /// `true` where this place is in front of `other` or the same.
    pub open spec fn spec_le(self, other: TextPosition) -> bool {
        self.line0 < other.line0 || (self.line0 == other.line0 && self.col0 <= other.col0)
    }

    /// Compares places in text order.
    pub fn le(self, other: TextPosition) -> (le: bool)
        ensures
            le == self.spec_le(other),
    {
        self.line0 < other.line0 || (self.line0 == other.line0 && self.col0 <= other.col0)
    }
}

/// A number of text units from a place on. A line break is one unit, however it is stored.
#[derive(Clone, Copy, Debug, PartialEq, Eq, Hash, Structural)]
pub struct TextRange {
    pub start: TextPosition,
    pub len_chars: usize,
}

impl Default for TextRange {
    fn default() -> (range: TextRange)
        ensures
            range.start == (TextPosition { line0: 0, col0: 0 }),
            range.len_chars == 0,
    {
        TextRange { start: TextPosition { line0: 0, col0: 0 }, len_chars: 0 }
    }
}

impl TextRange {
    pub fn new(start: TextPosition, len_chars: usize) -> (range: TextRange)
        ensures
            range == (TextRange { start, len_chars }),
    {
        TextRange { start, len_chars }
    }

    pub fn empty(start: TextPosition) -> (range: TextRange)
        ensures
            range == (TextRange { start, len_chars: 0 }),
    {
        TextRange { start, len_chars: 0 }
    }

    pub fn start(self) -> (start: TextPosition)
        ensures
            start == self.start,
    {
        self.start
    }

    pub fn len_chars(self) -> (len_chars: usize)
        ensures
            len_chars == self.len_chars,
    {
        self.len_chars
    }

    pub fn is_empty(self) -> (empty: bool)
        ensures
            empty == (self.len_chars == 0),
    {
        self.len_chars == 0
    }
}

/// A match of a search.
#[derive(Clone, Copy, Debug, PartialEq, Eq, Hash, Structural)]
pub struct SearchMatch {
    pub range: TextRange,
    pub end: TextPosition,
}

impl SearchMatch {
    pub fn new(range: TextRange, end: TextPosition) -> (found: SearchMatch)
        ensures
            found == (SearchMatch { range, end }),
    {
        SearchMatch { range, end }
    }

    pub fn range(self) -> (range: TextRange)
        ensures
            range == self.range,
    {
        self.range
    }

    pub fn start(self) -> (start: TextPosition)
        ensures
            start == self.range.start,
    {
        self.range.start
    }

    pub fn end(self) -> (end: TextPosition)
        ensures
            end == self.end,
    {
        self.end
    }

    pub fn len_chars(self) -> (len_chars: usize)
        ensures
            len_chars == self.range.len_chars,
    {
        self.range.len_chars
    }

    pub fn is_empty(self) -> (empty: bool)
        ensures
            empty == (self.range.len_chars == 0),
    {
        self.range.len_chars == 0
    }

    /// The match as a selection with its head at the end.
    pub fn selection(self) -> (selection: TextSelection)
        ensures
            selection == (TextSelection { anchor: self.range.start, head: self.end }),
    {
        TextSelection { anchor: self.range.start, head: self.end }
    }
}

/// A selection: where it was started and where it is now.
#[derive(Clone, Copy, Debug, PartialEq, Eq, Hash, Structural)]
pub struct TextSelection {
    pub anchor: TextPosition,
    pub head: TextPosition,
}

impl Default for TextSelection {
    fn default() -> (selection: TextSelection)
        ensures
            selection.anchor == (TextPosition { line0: 0, col0: 0 }),
            selection.head == (TextPosition { line0: 0, col0: 0 }),
    {
        TextSelection {
            anchor: TextPosition { line0: 0, col0: 0 },
            head: TextPosition { line0: 0, col0: 0 },
        }
    }
}

impl TextSelection {
    pub fn new(anchor: TextPosition, head: TextPosition) -> (selection: TextSelection)
        ensures
            selection == (TextSelection { anchor, head }),
    {
        TextSelection { anchor, head }
    }

    pub fn caret(position: TextPosition) -> (selection: TextSelection)
        ensures
            selection == (TextSelection { anchor: position, head: position }),
    {
        TextSelection { anchor: position, head: position }
    }

    pub fn anchor(self) -> (anchor: TextPosition)
        ensures
            anchor == self.anchor,
    {
        self.anchor
    }

    pub fn head(self) -> (head: TextPosition)
        ensures
            head == self.head,
    {
        self.head
    }

    pub fn is_caret(self) -> (caret: bool)
        ensures
            caret == (self.anchor == self.head),
    {
        self.anchor == self.head
    }
}

/// Which rows and columns a view shows.
#[derive(Clone, Copy, Debug, PartialEq, Eq, Structural)]
pub struct ViewportRequest {
    pub first_line0: usize,
    pub line_count: usize,
    pub start_col: usize,
    pub max_cols: usize,
}

impl Default for ViewportRequest {
    fn default() -> (request: ViewportRequest)
        ensures
            request == (ViewportRequest {
                first_line0: 0,
                line_count: 0,
                start_col: 0,
                max_cols: usize::MAX,
            }),
    {
        ViewportRequest::new(0, 0)
    }
}

impl ViewportRequest {
    /// All columns of `line_count` lines.
    pub fn new(first_line0: usize, line_count: usize) -> (request: ViewportRequest)
        ensures
            request == (ViewportRequest {
                first_line0,
                line_count,
                start_col: 0,
                max_cols: usize::MAX,
            }),
    {
        ViewportRequest { first_line0, line_count, start_col: 0, max_cols: usize::MAX }
    }

    pub fn with_columns(self, start_col: usize, max_cols: usize) -> (request: ViewportRequest)
        ensures
            request == (ViewportRequest { start_col, max_cols, ..self }),
    {
        ViewportRequest {
            first_line0: self.first_line0,
            line_count: self.line_count,
            start_col,
            max_cols,
        }
    }

    pub fn first_line0(self) -> (line0: usize)
        ensures
            line0 == self.first_line0,
    {
        self.first_line0
    }

    pub fn line_count(self) -> (count: usize)
        ensures
            count == self.line_count,
    {
        self.line_count
    }

    pub fn start_col(self) -> (col: usize)
        ensures
            col == self.start_col,
    {
        self.start_col
    }

    pub fn max_cols(self) -> (cols: usize)
        ensures
            cols == self.max_cols,
    {
        self.max_cols
    }
}

/// One row of a view.
#[derive(Clone, Debug, PartialEq, Eq)]
pub struct ViewportRow {
    pub line0: usize,
    pub slice: LineSlice,
}

impl ViewportRow {
    pub fn new(line0: usize, slice: LineSlice) -> (row: ViewportRow)
        ensures
            row.line0 == line0,
            row.slice == slice,
    {
        ViewportRow { line0, slice }
    }

    pub fn line0(&self) -> (line0: usize)
        ensures
            line0 == self.line0,
    {
        self.line0
    }

    /// The line number counted from one.
    pub open spec fn spec_line_number(self) -> usize {
        if self.line0 == usize::MAX {
            usize::MAX
        } else {
            (self.line0 + 1) as usize
        }
    }

    /// The line number counted from one.
    pub fn line_number(&self) -> (number: usize)
        ensures
            number == self.spec_line_number(),
    {
        self.line0.saturating_add(1)
    }

    pub fn slice(&self) -> (slice: &LineSlice)
        ensures
            *slice == self.slice,
    {
        &self.slice
    }

    pub fn into_slice(self) -> (slice: LineSlice)
        ensures
            slice == self.slice,
    {
        self.slice
    }

    pub fn text(&self) -> (text: &str)
        ensures
            text@ == self.slice.text@,
    {
        self.slice.text()
    }

    pub fn is_exact(&self) -> (exact: bool)
        ensures
            exact == self.slice.exact,
    {
        self.slice.is_exact()
    }
}

/// The rows that a view shows, and how many lines there are.
#[derive(Clone, Debug, PartialEq, Eq)]
pub struct Viewport {
    pub request: ViewportRequest,
    pub total_lines: LineCount,
    pub rows: Vec<ViewportRow>,
}

impl Viewport {
    pub fn new(request: ViewportRequest, total_lines: LineCount, rows: Vec<ViewportRow>) -> (viewport:
        Viewport)
        ensures
            viewport.request == request,
            viewport.total_lines == total_lines,
            viewport.rows == rows,
    {
        Viewport { request, total_lines, rows }
    }

    pub fn request(&self) -> (request: ViewportRequest)
        ensures
            request == self.request,
    {
        self.request
    }

    pub fn total_lines(&self) -> (lines: LineCount)
        ensures
            lines == self.total_lines,
    {
        self.total_lines
    }

    pub fn rows(&self) -> (rows: &[ViewportRow])
        ensures
            rows@ == self.rows@,
    {
        self.rows.as_slice()
    }

    pub fn into_rows(self) -> (rows: Vec<ViewportRow>)
        ensures
            rows == self.rows,
    {
        self.rows
    }

    pub fn len(&self) -> (len: usize)
        ensures
            len == self.rows@.len(),
    {
        self.rows.len()
    }

    pub fn is_empty(&self) -> (empty: bool)
        ensures
            empty == (self.rows@.len() == 0),
    {
        self.rows.len() == 0
    }
}

/// What an edit came to.
#[derive(Clone, Copy, Debug, PartialEq, Eq, Structural)]
pub struct EditResult {
    pub changed: bool,
    pub cursor: TextPosition,
}

impl Default for EditResult {
    fn default() -> (result: EditResult)
        ensures
            !result.changed,
            result.cursor == (TextPosition { line0: 0, col0: 0 }),
    {
        EditResult { changed: false, cursor: TextPosition { line0: 0, col0: 0 } }
    }
}

impl EditResult {
    pub fn new(changed: bool, cursor: TextPosition) -> (result: EditResult)
        ensures
            result == (EditResult { changed, cursor }),
    {
        EditResult { changed, cursor }
    }

    pub fn changed(self) -> (changed: bool)
        ensures
            changed == self.changed,
    {
        self.changed
    }

    pub fn cursor(self) -> (cursor: TextPosition)
        ensures
            cursor == self.cursor,
    {
        self.cursor
    }
}

/// The text that was cut and what the edit came to.
#[derive(Clone, Debug, PartialEq, Eq)]
pub struct CutResult {
    pub text: String,
    pub edit: EditResult,
}

impl CutResult {
    pub fn new(text: String, edit: EditResult) -> (result: CutResult)
        ensures
            result.text == text,
            result.edit == edit,
    {
        CutResult { text, edit }
    }

    pub fn text(&self) -> (text: &str)
        ensures
            text@ == self.text@,
    {
        self.text.as_str()
    }

    pub fn into_text(self) -> (text: String)
        ensures
            text == self.text,
    {
        self.text
    }

    pub fn edit(&self) -> (edit: EditResult)
        ensures
            edit == self.edit,
    {
        self.edit
    }

    pub fn changed(&self) -> (changed: bool)
        ensures
            changed == self.edit.changed,
    {
        self.edit.changed
    }

    pub fn cursor(&self) -> (cursor: TextPosition)
        ensures
            cursor == self.edit.cursor,
    {
        self.edit.cursor
    }
}

/// How far some work over bytes has come.
#[derive(Clone, Copy, Debug, PartialEq, Eq, Structural)]
pub struct ByteProgress {
    pub completed_bytes: usize,
    pub total_bytes: usize,
}

impl Default for ByteProgress {
    fn default() -> (progress: ByteProgress)
        ensures
            progress == (ByteProgress { completed_bytes: 0, total_bytes: 0 }),
    {
        ByteProgress { completed_bytes: 0, total_bytes: 0 }
    }
}

impl ByteProgress {
    pub fn new(completed_bytes: usize, total_bytes: usize) -> (progress: ByteProgress)
        ensures
            progress == (ByteProgress { completed_bytes, total_bytes }),
    {
        ByteProgress { completed_bytes, total_bytes }
    }

    pub fn completed_bytes(self) -> (bytes: usize)
        ensures
            bytes == self.completed_bytes,
    {
        self.completed_bytes
    }

    pub fn total_bytes(self) -> (bytes: usize)
        ensures
            bytes == self.total_bytes,
    {
        self.total_bytes
    }
}

/// A number of lines, exact or estimated.
#[derive(Clone, Copy, Debug, PartialEq, Eq, Structural)]
#[must_use]
pub enum LineCount {
    Exact(usize),
    Estimated(usize),
}

impl LineCount {
    pub open spec fn spec_exact(self) -> Option<usize> {
        match self {
            LineCount::Exact(lines) => Some(lines),
            LineCount::Estimated(_) => None,
        }
    }

    pub fn exact(self) -> (lines: Option<usize>)
        ensures
            lines == self.spec_exact(),
    {
        match self {
            LineCount::Exact(lines) => Some(lines),
            LineCount::Estimated(_) => None,
        }
    }

    /// A view shows at least one row.
    pub open spec fn spec_display_rows(self) -> usize {
        let lines = match self {
            LineCount::Exact(lines) => lines,
            LineCount::Estimated(lines) => lines,
        };
        if lines == 0 {
            1
        } else {
            lines
        }
    }

    pub fn display_rows(self) -> (rows: usize)
        ensures
            rows == self.spec_display_rows(),
    {
        let lines: usize = match self {
            LineCount::Exact(lines) => lines,
            LineCount::Estimated(lines) => lines,
        };
        if lines == 0 {
            1
        } else {
            lines
        }
    }

    pub fn is_exact(self) -> (exact: bool)
        ensures
            exact == (self is Exact),
    {
        match self {
            LineCount::Exact(_) => true,
            LineCount::Estimated(_) => false,
        }
    }
}

/// What holds the text of a document.
#[derive(Clone, Copy, Debug, PartialEq, Eq, Hash, Structural)]
pub enum DocumentBacking {
    Mmap,
    PieceTable,
    Rope,
}

impl DocumentBacking {
    pub open spec fn spec_as_str(self) -> &'static str {
        match self {
            DocumentBacking::Mmap => "mmap",
            DocumentBacking::PieceTable => "piece-table",
            DocumentBacking::Rope => "rope",
        }
    }

    pub fn as_str(self) -> (text: &'static str)
        ensures
            text@ == self.spec_as_str()@,
    {
        match self {
            DocumentBacking::Mmap => "mmap",
            DocumentBacking::PieceTable => "piece-table",
            DocumentBacking::Rope => "rope",
        }
    }
}

/// Whether and how a place can be edited.
#[derive(Clone, Copy, Debug, PartialEq, Eq, Hash)]
pub enum EditCapability {
    Editable { backing: DocumentBacking },
    RequiresPromotion { from: DocumentBacking, to: DocumentBacking },
    Unsupported { backing: DocumentBacking, reason: &'static str },
}

impl EditCapability {
    /// `true` where the place can be edited, at once or in another buffer.
    pub open spec fn spec_is_editable(self) -> bool {
        !(self is Unsupported)
    }

    /// What holds the text now.
    pub open spec fn spec_current_backing(self) -> DocumentBacking {
        match self {
            EditCapability::Editable { backing } => backing,
            EditCapability::Unsupported { backing, .. } => backing,
            EditCapability::RequiresPromotion { from, .. } => from,
        }
    }

    /// What the text has to be moved to first.
    pub open spec fn spec_target_backing(self) -> Option<DocumentBacking> {
        match self {
            EditCapability::RequiresPromotion { to, .. } => Some(to),
            _ => None,
        }
    }

    pub fn is_editable(self) -> (editable: bool)
        ensures
            editable == self.spec_is_editable(),
    {
        match self {
            EditCapability::Unsupported { .. } => false,
            _ => true,
        }
    }

    pub fn requires_promotion(self) -> (requires_promotion: bool)
        ensures
            requires_promotion == (self is RequiresPromotion),
    {
        match self {
            EditCapability::RequiresPromotion { .. } => true,
            _ => false,
        }
    }

    pub fn current_backing(self) -> (current: DocumentBacking)
        ensures
            current == self.spec_current_backing(),
    {
        match self {
            EditCapability::Editable { backing } => backing,
            EditCapability::Unsupported { backing, .. } => backing,
            EditCapability::RequiresPromotion { from, .. } => from,
        }
    }

    pub fn target_backing(self) -> (target: Option<DocumentBacking>)
        ensures
            target == self.spec_target_backing(),
    {
        match self {
            EditCapability::RequiresPromotion { to, .. } => Some(to),
            _ => None,
        }
    }

    pub fn reason(self) -> (text: Option<&'static str>)
        ensures
            text == (match self {
                EditCapability::Unsupported { reason, .. } => Some(reason),
                _ => None,
            }),
    {
        match self {
            EditCapability::Unsupported { reason, .. } => Some(reason),
            _ => None,
        }
    }
}

impl From<(usize, usize)> for TextPosition {
    fn from(value: (usize, usize)) -> (position: TextPosition) {
        TextPosition::new(value.0, value.1)
    }
}

impl vstd::std_specs::convert::FromSpecImpl<(usize, usize)> for TextPosition {
    open spec fn obeys_from_spec() -> bool {
        true
    }

    open spec fn from_spec(value: (usize, usize)) -> TextPosition {
        TextPosition { line0: value.0, col0: value.1 }
    }
}

impl From<TextPosition> for (usize, usize) {
    fn from(value: TextPosition) -> (pair: (usize, usize)) {
        (value.line0, value.col0)
    }
}

impl vstd::std_specs::convert::FromSpecImpl<TextPosition> for (usize, usize) {
    open spec fn obeys_from_spec() -> bool {
        true
    }

    open spec fn from_spec(value: TextPosition) -> (usize, usize) {
        (value.line0, value.col0)
    }
}

impl From<LineSlice> for String {
    fn from(value: LineSlice) -> (text: String) {
        value.text
    }
}

impl vstd::std_specs::convert::FromSpecImpl<LineSlice> for String {
    open spec fn obeys_from_spec() -> bool {
        true
    }

    open spec fn from_spec(value: LineSlice) -> String {
        value.text
    }
}

impl From<TextSlice> for String {
    fn from(value: TextSlice) -> (text: String) {
        value.text
    }
}

impl vstd::std_specs::convert::FromSpecImpl<TextSlice> for String {
    open spec fn obeys_from_spec() -> bool {
        true
    }

    open spec fn from_spec(value: TextSlice) -> String {
        value.text
    }
}

impl std::ops::Deref for LineSlice {
    type Target = str;

    fn deref(&self) -> (text: &str)
        ensures
            text@ == self.text@,
    {
        self.text.as_str()
    }
}

impl std::ops::Deref for TextSlice {
    type Target = str;

    fn deref(&self) -> (text: &str)
        ensures
            text@ == self.text@,
    {
        self.text.as_str()
    }
}

impl AsRef<str> for LineSlice {
    fn as_ref(&self) -> (text: &str)
        ensures
            text@ == self.text@,
    {
        self.text.as_str()
    }
}

impl AsRef<str> for TextSlice {
    fn as_ref(&self) -> (text: &str)
        ensures
            text@ == self.text@,
    {
        self.text.as_str()
    }
}

} // verus!
