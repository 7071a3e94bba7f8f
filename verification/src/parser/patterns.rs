use vstd::prelude::*;

verus! {

/// `"`
pub const QUOTE: u8 = 0x22;
/// `,`
pub const COMMA: u8 = 0x2c;
/// `[`
pub const OPEN_BRACKET: u8 = 0x5b;
/// `]`
pub const CLOSE_BRACKET: u8 = 0x5d;
/// `{`
pub const OPEN_BRACE: u8 = 0x7b;
/// `}`
pub const CLOSE_BRACE: u8 = 0x7d;
/// `)`
pub const CLOSE_PAREN: u8 = 0x29;
/// A line feed.
pub const NEWLINE: u8 = 0x0a;

/// The comment that opens the content-type line: `(* Content-type: `.
pub open spec fn content_type_marker() -> Seq<u8> {
    seq![0x28u8, 0x2a, 0x20, 0x43, 0x6f, 0x6e, 0x74, 0x65, 0x6e, 0x74, 0x2d, 0x74, 0x79, 0x70, 0x65, 0x3a, 0x20]
}

/// The bytes of [`content_type_marker`].
pub fn content_type_marker_bytes() -> (r: [u8; 17])
    ensures
        r@ == content_type_marker(),
{
    [0x28, 0x2a, 0x20, 0x43, 0x6f, 0x6e, 0x74, 0x65, 0x6e, 0x74, 0x2d, 0x74, 0x79, 0x70, 0x65, 0x3a, 0x20]
}

/// The comment `(* Beginning of Notebook Content *)`.
pub open spec fn beginning_marker() -> Seq<u8> {
    seq![0x28u8, 0x2a, 0x20, 0x42, 0x65, 0x67, 0x69, 0x6e, 0x6e, 0x69, 0x6e, 0x67, 0x20, 0x6f, 0x66, 0x20, 0x4e, 0x6f, 0x74, 0x65, 0x62, 0x6f, 0x6f, 0x6b, 0x20, 0x43, 0x6f, 0x6e, 0x74, 0x65, 0x6e, 0x74, 0x20, 0x2a, 0x29]
}

/// The bytes of [`beginning_marker`].
pub fn beginning_marker_bytes() -> (r: [u8; 35])
    ensures
        r@ == beginning_marker(),
{
    [0x28, 0x2a, 0x20, 0x42, 0x65, 0x67, 0x69, 0x6e, 0x6e, 0x69, 0x6e, 0x67, 0x20, 0x6f, 0x66, 0x20, 0x4e, 0x6f, 0x74, 0x65, 0x62, 0x6f, 0x6f, 0x6b, 0x20, 0x43, 0x6f, 0x6e, 0x74, 0x65, 0x6e, 0x74, 0x20, 0x2a, 0x29]
}

/// The head of the notebook function: `Notebook[`.
pub open spec fn notebook_open() -> Seq<u8> {
    seq![0x4eu8, 0x6f, 0x74, 0x65, 0x62, 0x6f, 0x6f, 0x6b, 0x5b]
}

/// The bytes of [`notebook_open`].
pub fn notebook_open_bytes() -> (r: [u8; 9])
    ensures
        r@ == notebook_open(),
{
    [0x4e, 0x6f, 0x74, 0x65, 0x62, 0x6f, 0x6f, 0x6b, 0x5b]
}

/// The head of a cell: `Cell[`.
pub open spec fn cell_open() -> Seq<u8> {
    seq![0x43u8, 0x65, 0x6c, 0x6c, 0x5b]
}

/// The bytes of [`cell_open`].
pub fn cell_open_bytes() -> (r: [u8; 5])
    ensures
        r@ == cell_open(),
{
    [0x43, 0x65, 0x6c, 0x6c, 0x5b]
}

/// The head of a cell group: `CellGroupData[`.
pub open spec fn cell_group_data_open() -> Seq<u8> {
    seq![0x43u8, 0x65, 0x6c, 0x6c, 0x47, 0x72, 0x6f, 0x75, 0x70, 0x44, 0x61, 0x74, 0x61, 0x5b]
}

/// The bytes of [`cell_group_data_open`].
pub fn cell_group_data_open_bytes() -> (r: [u8; 14])
    ensures
        r@ == cell_group_data_open(),
{
    [0x43, 0x65, 0x6c, 0x6c, 0x47, 0x72, 0x6f, 0x75, 0x70, 0x44, 0x61, 0x74, 0x61, 0x5b]
}

/// The style of message cells: `"Message"`.
pub open spec fn message_style() -> Seq<u8> {
    seq![0x22u8, 0x4d, 0x65, 0x73, 0x73, 0x61, 0x67, 0x65, 0x22]
}

/// The bytes of [`message_style`].
pub fn message_style_bytes() -> (r: [u8; 9])
    ensures
        r@ == message_style(),
{
    [0x22, 0x4d, 0x65, 0x73, 0x73, 0x61, 0x67, 0x65, 0x22]
}

/// The style of output cells: `"Output"`.
pub open spec fn output_style() -> Seq<u8> {
    seq![0x22u8, 0x4f, 0x75, 0x74, 0x70, 0x75, 0x74, 0x22]
}

/// The bytes of [`output_style`].
pub fn output_style_bytes() -> (r: [u8; 8])
    ensures
        r@ == output_style(),
{
    [0x22, 0x4f, 0x75, 0x74, 0x70, 0x75, 0x74, 0x22]
}

/// The style of temporary print cells: `"PrintTemporary"`.
pub open spec fn print_temporary_style() -> Seq<u8> {
    seq![0x22u8, 0x50, 0x72, 0x69, 0x6e, 0x74, 0x54, 0x65, 0x6d, 0x70, 0x6f, 0x72, 0x61, 0x72, 0x79, 0x22]
}

/// The bytes of [`print_temporary_style`].
pub fn print_temporary_style_bytes() -> (r: [u8; 16])
    ensures
        r@ == print_temporary_style(),
{
    [0x22, 0x50, 0x72, 0x69, 0x6e, 0x74, 0x54, 0x65, 0x6d, 0x70, 0x6f, 0x72, 0x61, 0x72, 0x79, 0x22]
}

/// The style of print cells: `"Print"`.
pub open spec fn print_style() -> Seq<u8> {
    seq![0x22u8, 0x50, 0x72, 0x69, 0x6e, 0x74, 0x22]
}

/// The bytes of [`print_style`].
pub fn print_style_bytes() -> (r: [u8; 7])
    ensures
        r@ == print_style(),
{
    [0x22, 0x50, 0x72, 0x69, 0x6e, 0x74, 0x22]
}

/// The cell option recording edit times: `CellChangeTimes`.
pub open spec fn cell_change_times() -> Seq<u8> {
    seq![0x43u8, 0x65, 0x6c, 0x6c, 0x43, 0x68, 0x61, 0x6e, 0x67, 0x65, 0x54, 0x69, 0x6d, 0x65, 0x73]
}

/// The bytes of [`cell_change_times`].
pub fn cell_change_times_bytes() -> (r: [u8; 15])
    ensures
        r@ == cell_change_times(),
{
    [0x43, 0x65, 0x6c, 0x6c, 0x43, 0x68, 0x61, 0x6e, 0x67, 0x65, 0x54, 0x69, 0x6d, 0x65, 0x73]
}

/// The cell option holding a unique identifier: `ExpressionUUID`.
pub open spec fn expression_uuid() -> Seq<u8> {
    seq![0x45u8, 0x78, 0x70, 0x72, 0x65, 0x73, 0x73, 0x69, 0x6f, 0x6e, 0x55, 0x55, 0x49, 0x44]
}

/// The bytes of [`expression_uuid`].
pub fn expression_uuid_bytes() -> (r: [u8; 14])
    ensures
        r@ == expression_uuid(),
{
    [0x45, 0x78, 0x70, 0x72, 0x65, 0x73, 0x73, 0x69, 0x6f, 0x6e, 0x55, 0x55, 0x49, 0x44]
}

/// What closes the filtered notebook: `]`, a newline, `(* End of Notebook Content *)` and a newline.
pub open spec fn notebook_close() -> Seq<u8> {
    seq![0x5du8, 0x0a, 0x28, 0x2a, 0x20, 0x45, 0x6e, 0x64, 0x20, 0x6f, 0x66, 0x20, 0x4e, 0x6f, 0x74, 0x65, 0x62, 0x6f, 0x6f, 0x6b, 0x20, 0x43, 0x6f, 0x6e, 0x74, 0x65, 0x6e, 0x74, 0x20, 0x2a, 0x29, 0x0a]
}

/// The bytes of [`notebook_close`].
pub fn notebook_close_bytes() -> (r: [u8; 32])
    ensures
        r@ == notebook_close(),
{
    [0x5d, 0x0a, 0x28, 0x2a, 0x20, 0x45, 0x6e, 0x64, 0x20, 0x6f, 0x66, 0x20, 0x4e, 0x6f, 0x74, 0x65, 0x62, 0x6f, 0x6f, 0x6b, 0x20, 0x43, 0x6f, 0x6e, 0x74, 0x65, 0x6e, 0x74, 0x20, 0x2a, 0x29, 0x0a]
}

} // verus!
