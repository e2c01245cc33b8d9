//! Logic of the DXGI desktop-duplication back end that does not touch the
//! Windows API: format mapping, display naming and selection, staging
//! texture decisions and the repacking of a mapped frame.

use vstd::prelude::*;
use core::time::Duration;
use std::time::SystemTime;
use crate::capture::ShmPixelFormat;
use crate::text::{
    decimal, is_digit_char, lemma_decimal_digits, lemma_decimal_injective, push_decimal, str_eq,
    trim, trim_str,
};

verus! {

/// `DXGI_FORMAT_B8G8R8A8_UNORM`.
pub const DXGI_FORMAT_B8G8R8A8_UNORM: i32 = 87;
/// `DXGI_FORMAT_B8G8R8X8_UNORM`.
pub const DXGI_FORMAT_B8G8R8X8_UNORM: i32 = 88;

/// The shared-memory pixel layout that a DXGI format maps to, if any.
/// BGRA / BGRX byte order in memory matches little-endian ARGB / XRGB.
pub open spec fn spec_pixel_format_from_dxgi(format: i32) -> Option<ShmPixelFormat> {
    if format == DXGI_FORMAT_B8G8R8A8_UNORM {
        Some(ShmPixelFormat::Argb8888)
    } else if format == DXGI_FORMAT_B8G8R8X8_UNORM {
        Some(ShmPixelFormat::Xrgb8888)
    } else {
        None
    }
}

/// The shared-memory pixel layout of a DXGI format: ARGB8888 for BGRA,
/// XRGB8888 for BGRX, none for any other format.
pub fn pixel_format_from_dxgi(format: i32) -> (res: Option<ShmPixelFormat>)
    ensures
        res == spec_pixel_format_from_dxgi(format),
{
    if format == DXGI_FORMAT_B8G8R8A8_UNORM {
        Some(ShmPixelFormat::Argb8888)
    } else if format == DXGI_FORMAT_B8G8R8X8_UNORM {
        Some(ShmPixelFormat::Xrgb8888)
    } else {
        None
    }
}

/// A rectangle in desktop coordinates (`RECT`).
#[derive(Debug, Clone, Copy, PartialEq, Eq, Structural)]
pub struct Rect {
    pub left: i32,
    pub top: i32,
    pub right: i32,
    pub bottom: i32,
}

/// What the display logic reads of a `DXGI_OUTPUT_DESC`.
#[derive(Debug, Clone)]
pub struct OutputDesc {
    /// The output's device name, a NUL-padded UTF-16 buffer.
    pub device_name: Vec<u16>,
    pub desktop_coordinates: Rect,
    pub attached_to_desktop: bool,
}

/// The code units of a NUL-terminated UTF-16 buffer before the first NUL
/// (all of them when there is none).
pub open spec fn units_before_nul(chars: Seq<u16>) -> Seq<u16>
    decreases chars.len(),
{
    if chars.len() == 0 || chars[0] == 0 {
        Seq::empty()
    } else {
        seq![chars[0]] + units_before_nul(chars.drop_first())
    }
}

/// Whether a UTF-16 code unit is a surrogate (`0xD800..=0xDFFF`).
pub open spec fn is_surrogate(u: u16) -> bool {
    0xD800 <= u <= 0xDFFF
}

/// Whether a UTF-16 code unit is a high (leading) surrogate.
pub open spec fn is_high_surrogate(u: u16) -> bool {
    0xD800 <= u <= 0xDBFF
}

/// Whether a UTF-16 code unit is a low (trailing) surrogate.
pub open spec fn is_low_surrogate(u: u16) -> bool {
    0xDC00 <= u <= 0xDFFF
}

/// The code point that a surrogate pair encodes.
pub open spec fn surrogate_pair_code(high: u16, low: u16) -> int {
    0x10000 + (high - 0xD800) * 0x400 + (low - 0xDC00)
}

/// Lossy UTF-16 decoding: a unit that is not a surrogate is that
/// character, a high surrogate followed by a low surrogate is the code
/// point they combine to, and every other surrogate becomes U+FFFD.
pub open spec fn utf16_lossy(units: Seq<u16>) -> Seq<char>
    decreases units.len(),
{
    if units.len() == 0 {
        Seq::empty()
    } else if !is_surrogate(units[0]) {
        seq![units[0] as char] + utf16_lossy(units.drop_first())
    } else if is_high_surrogate(units[0]) && units.len() >= 2 && is_low_surrogate(units[1]) {
        seq![surrogate_pair_code(units[0], units[1]) as char] + utf16_lossy(units.skip(2))
    } else {
        seq!['\u{FFFD}'] + utf16_lossy(units.drop_first())
    }
}

/// Calls `String::from_utf16_lossy`, which decodes UTF-16 and replaces
/// each unpaired surrogate with U+FFFD, as [`utf16_lossy`] states.
#[verifier::external_body]
fn string_from_utf16_lossy(units: &[u16]) -> (res: String)
    ensures
        res@ == utf16_lossy(units@),
{
    String::from_utf16_lossy(units)
}

/// The UTF-16 encoding of one character: itself below U+10000, a
/// surrogate pair above.
pub open spec fn utf16_encode_char(c: char) -> Seq<u16> {
    let v = c as u32;
    if v < 0x10000 {
        seq![v as u16]
    } else {
        seq![(0xD800 + (v - 0x10000) / 0x400) as u16, (0xDC00 + (v - 0x10000) % 0x400) as u16]
    }
}

/// The UTF-16 encoding of a string.
pub open spec fn utf16_encode(s: Seq<char>) -> Seq<u16>
    decreases s.len(),
{
    if s.len() == 0 {
        Seq::empty()
    } else {
        utf16_encode_char(s[0]) + utf16_encode(s.drop_first())
    }
}

/// A character's code is a Unicode scalar value, and converts back.
proof fn lemma_char_code(c: char)
    ensures
        ((c as u32) as char) == c,
        !(0xD800 <= c as u32 <= 0xDFFF),
        c as u32 <= 0x10FFFF,
{
}

/// Decoding what encoding produced gives the string back, and the encoding
/// of a string without NUL holds no zero unit.
proof fn lemma_utf16_roundtrip(s: Seq<char>)
    ensures
        utf16_lossy(utf16_encode(s)) == s,
        (forall|i: int| 0 <= i < s.len() ==> #[trigger] s[i] != '\0') ==> forall|j: int|
            0 <= j < utf16_encode(s).len() ==> #[trigger] utf16_encode(s)[j] != 0,
    decreases s.len(),
{
    if s.len() > 0 {
        let c = s[0];
        let rest = s.drop_first();
        lemma_utf16_roundtrip(rest);
        let e = utf16_encode_char(c);
        let er = utf16_encode(rest);
        let all = utf16_encode(s);
        assert(all == e + er);
        let v = c as u32;
        lemma_char_code(c);
        if v < 0x10000 {
            assert(all.drop_first() =~= er);
            assert(all[0] == v as u16);
            assert((v as u16) as u32 == v);
        } else {
            let w = v - 0x10000;
            let hi = (0xD800 + w / 0x400) as u16;
            let lo = (0xDC00 + w % 0x400) as u16;
            assert(0 <= w / 0x400 < 0x400 && 0 <= w % 0x400 < 0x400);
            assert(hi == 0xD800 + w / 0x400);
            assert(lo == 0xDC00 + w % 0x400);
            assert(w == (w / 0x400) * 0x400 + w % 0x400);
            assert(surrogate_pair_code(hi, lo) == v);
            assert(all[0] == hi && all[1] == lo);
            assert(all.skip(2) =~= er);
        }
        assert(utf16_lossy(all) =~= seq![c] + rest);
        assert(seq![c] + rest =~= s);
        if forall|i: int| 0 <= i < s.len() ==> #[trigger] s[i] != '\0' {
            assert forall|i: int| 0 <= i < rest.len() implies #[trigger] rest[i] != '\0' by {
                assert(rest[i] == s[i + 1]);
            }
            assert(s[0] != '\0');
            assert forall|j: int| 0 <= j < all.len() implies #[trigger] all[j] != 0 by {
                if j >= e.len() {
                    assert(all[j] == er[j - e.len()]);
                }
            }
        }
    }
}

/// The text of a NUL-terminated UTF-16 buffer.
pub open spec fn spec_wide_string(chars: Seq<u16>) -> Seq<char> {
    utf16_lossy(units_before_nul(chars))
}

proof fn lemma_units_before_nul(chars: Seq<u16>, end: int)
    requires
        0 <= end <= chars.len(),
        forall|j: int| 0 <= j < end ==> #[trigger] chars[j] != 0,
        end == chars.len() || chars[end] == 0,
    ensures
        units_before_nul(chars) == chars.subrange(0, end),
    decreases end,
{
    if end == 0 {
        assert(chars.subrange(0, 0) =~= Seq::<u16>::empty());
    } else {
        let t = chars.drop_first();
        assert forall|j: int| 0 <= j < end - 1 implies #[trigger] t[j] != 0 by {
            assert(t[j] == chars[j + 1]);
        }
        lemma_units_before_nul(t, end - 1);
        assert(seq![chars[0]] + t.subrange(0, end - 1) =~= chars.subrange(0, end));
    }
}

/// Decodes a NUL-terminated UTF-16 buffer: the units before the first NUL,
/// decoded lossily.
pub fn wide_string(chars: &[u16]) -> (res: String)
    ensures
        res@ == spec_wide_string(chars@),
{
    let len = chars.len();
    let mut end: usize = 0;
    while end < len && chars[end] != 0
        invariant
            len == chars@.len(),
            end <= len,
            forall|j: int| 0 <= j < end ==> #[trigger] chars@[j] != 0,
        decreases len - end,
    {
        end = end + 1;
    }
    proof {
        lemma_units_before_nul(chars@, end as int);
    }
    let prefix = vstd::slice::slice_subrange(chars, 0, end);
    string_from_utf16_lossy(prefix)
}

/// Round trip: the wide string of a buffer that holds the UTF-16 encoding
/// of a string without NUL, then a NUL and anything after it (or nothing
/// at all), is that string.
pub proof fn law_wide_string_roundtrip(s: Seq<char>, rest: Seq<u16>)
    requires
        forall|i: int| 0 <= i < s.len() ==> #[trigger] s[i] != '\0',
    ensures
        spec_wide_string(utf16_encode(s)) == s,
        spec_wide_string(utf16_encode(s) + seq![0u16] + rest) == s,
{
    lemma_utf16_roundtrip(s);
    let e = utf16_encode(s);
    lemma_units_before_nul(e, e.len() as int);
    assert(e.subrange(0, e.len() as int) =~= e);
    let buf = e + seq![0u16] + rest;
    assert forall|j: int| 0 <= j < e.len() implies #[trigger] buf[j] != 0 by {
        assert(buf[j] == e[j]);
    }
    lemma_units_before_nul(buf, e.len() as int);
    assert(buf.subrange(0, e.len() as int) =~= e);
}

/// The name of an output: its device name.
pub fn output_name(desc: &OutputDesc) -> (res: String)
    ensures
        res@ == spec_wide_string(desc.device_name@),
{
    wide_string(desc.device_name.as_slice())
}

/// The stable id of output `output_index` of adapter `adapter_index`.
pub open spec fn spec_windows_display_id(adapter_index: u32, output_index: u32) -> Seq<char> {
    seq!['w', 'i', 'n', 'd', 'o', 'w', 's', ':'] + decimal(adapter_index as nat) + seq![':']
        + decimal(output_index as nat)
}

/// The stable id of a Windows display: `windows:<adapter>:<output>`.
pub fn windows_display_id(adapter_index: u32, output_index: u32) -> (res: String)
    ensures
        res@ == spec_windows_display_id(adapter_index, output_index),
{
    let prefix = "windows:";
    let sep = ":";
    proof {
        reveal_strlit("windows:");
        reveal_strlit(":");
    }
    let mut id = String::from_str(prefix);
    push_decimal(&mut id, adapter_index);
    id.append(sep);
    push_decimal(&mut id, output_index);
    assert(id@ =~= spec_windows_display_id(adapter_index, output_index));
    id
}

/// The description of a display: the trimmed adapter name and the output
/// name, unless the adapter name is blank or the same as the output name.
pub open spec fn spec_windows_display_description(
    adapter_name: Seq<char>,
    output_name: Seq<char>,
) -> Option<Seq<char>> {
    let name = trim(adapter_name);
    if name.len() == 0 || name == output_name {
        None
    } else {
        Some(name + seq![' ', '/', ' '] + output_name)
    }
}

/// Describes a display as `<adapter> / <output>`, or not at all when the
/// trimmed adapter name is empty or equal to the output name.
pub fn windows_display_description(adapter_name: &str, output_name: &str) -> (res: Option<String>)
    ensures
        res is None <==> spec_windows_display_description(adapter_name@, output_name@) is None,
        res matches Some(d) ==> spec_windows_display_description(adapter_name@, output_name@)
            == Some(d@),
{
    let adapter_name = trim_str(adapter_name);
    if adapter_name.unicode_len() == 0 || str_eq(adapter_name, output_name) {
        None
    } else {
        let sep = " / ";
        proof {
            reveal_strlit(" / ");
        }
        let mut description = String::from_str(adapter_name);
        description.append(sep);
        description.append(output_name);
        assert(description@ =~= adapter_name@ + seq![' ', '/', ' '] + output_name@);
        Some(description)
    }
}

/// The extent of a rectangle along one axis, clamped at zero.
pub open spec fn clamped_extent(low: i32, high: i32) -> u32 {
    if high - low > 0 {
        (high - low) as u32
    } else {
        0
    }
}

/// The width of the output's desktop area, clamped at zero.
pub fn display_width(desc: &OutputDesc) -> (res: u32)
    requires
        i32::MIN <= desc.desktop_coordinates.right - desc.desktop_coordinates.left <= i32::MAX,
    ensures
        res == clamped_extent(desc.desktop_coordinates.left, desc.desktop_coordinates.right),
{
    let extent = desc.desktop_coordinates.right - desc.desktop_coordinates.left;
    if extent > 0 {
        extent as u32
    } else {
        0
    }
}

/// The height of the output's desktop area, clamped at zero.
pub fn display_height(desc: &OutputDesc) -> (res: u32)
    requires
        i32::MIN <= desc.desktop_coordinates.bottom - desc.desktop_coordinates.top <= i32::MAX,
    ensures
        res == clamped_extent(desc.desktop_coordinates.top, desc.desktop_coordinates.bottom),
{
    let extent = desc.desktop_coordinates.bottom - desc.desktop_coordinates.top;
    if extent > 0 {
        extent as u32
    } else {
        0
    }
}

/// A display that can be captured.
#[derive(Debug, Clone)]
pub struct DisplayInfo {
    /// Stable id, `windows:<adapter>:<output>`.
    pub id: String,
    /// Position among the attached outputs, counted from zero.
    pub index: u32,
    pub name: String,
    pub description: Option<String>,
    pub width: u32,
    pub height: u32,
}

/// The mathematical value of a [`DisplayInfo`].
pub struct DisplayInfoView {
    pub id: Seq<char>,
    pub index: u32,
    pub name: Seq<char>,
    pub description: Option<Seq<char>>,
    pub width: u32,
    pub height: u32,
}

impl View for DisplayInfo {
    type V = DisplayInfoView;

    open spec fn view(&self) -> DisplayInfoView {
        DisplayInfoView {
            id: self.id@,
            index: self.index,
            name: self.name@,
            description: match self.description {
                Some(d) => Some(d@),
                None => None,
            },
            width: self.width,
            height: self.height,
        }
    }
}

/// An adapter as enumeration reports it: its description (a NUL-padded
/// UTF-16 buffer) and its outputs, in enumeration order.
#[derive(Debug, Clone)]
pub struct AdapterOutputs {
    pub description: Vec<u16>,
    pub outputs: Vec<OutputDesc>,
}

/// A display found by enumeration, with the position of its output.
#[derive(Debug, Clone)]
pub struct DisplayEntry {
    pub adapter_index: u32,
    pub output_index: u32,
    pub info: DisplayInfo,
}

/// Errors of the capture back end's own logic.
#[derive(Debug, Clone, PartialEq, Eq)]
pub enum CaptureError {
    /// No output is attached to the desktop.
    NoAttachedOutput,
    /// No attached output has the requested id.
    DisplayNotAvailable(String),
    /// The byte size of a row does not fit in `usize`.
    RowSizeOverflow,
    /// The mapped frame has no memory.
    NullMapping,
    /// The mapped frame's row pitch is smaller than a row of pixels.
    RowPitchTooSmall { row_pitch: u32, bytes_per_row: usize },
    /// The byte size of a row does not fit in `u32`.
    StrideOverflow,
    /// The byte size of the frame does not fit in `usize`.
    BufferSizeOverflow,
}

/// The (adapter, output) positions among the first `m` outputs of adapter
/// `a` that are attached to the desktop, in order.
pub open spec fn attached_outputs_of(a: int, outputs: Seq<OutputDesc>, m: int) -> Seq<(int, int)>
    decreases m,
{
    if m <= 0 {
        Seq::empty()
    } else {
        attached_outputs_of(a, outputs, m - 1) + if outputs[m - 1].attached_to_desktop {
            seq![(a, m - 1)]
        } else {
            Seq::empty()
        }
    }
}

/// The (adapter, output) positions of the attached outputs of the first `n`
/// adapters, in enumeration order.
pub open spec fn attached_outputs(adapters: Seq<AdapterOutputs>, n: int) -> Seq<(int, int)>
    decreases n,
{
    if n <= 0 {
        Seq::empty()
    } else {
        attached_outputs(adapters, n - 1) + attached_outputs_of(
            n - 1,
            adapters[n - 1].outputs@,
            adapters[n - 1].outputs@.len() as int,
        )
    }
}

/// All attached outputs of all adapters, in enumeration order.
pub open spec fn all_attached_outputs(adapters: Seq<AdapterOutputs>) -> Seq<(int, int)> {
    attached_outputs(adapters, adapters.len() as int)
}

/// The display reported for the output at `pos`, the `index`-th attached one.
pub open spec fn display_info_at(
    adapters: Seq<AdapterOutputs>,
    pos: (int, int),
    index: int,
) -> DisplayInfoView {
    let desc = adapters[pos.0].outputs@[pos.1];
    let name = spec_wide_string(desc.device_name@);
    DisplayInfoView {
        id: spec_windows_display_id(pos.0 as u32, pos.1 as u32),
        index: index as u32,
        name: name,
        description: spec_windows_display_description(
            spec_wide_string(adapters[pos.0].description@),
            name,
        ),
        width: clamped_extent(desc.desktop_coordinates.left, desc.desktop_coordinates.right),
        height: clamped_extent(desc.desktop_coordinates.top, desc.desktop_coordinates.bottom),
    }
}

/// The desktop extent of an output can be computed in 32 bits.
pub open spec fn extent_fits(desc: OutputDesc) -> bool {
    &&& i32::MIN <= desc.desktop_coordinates.right - desc.desktop_coordinates.left <= i32::MAX
    &&& i32::MIN <= desc.desktop_coordinates.bottom - desc.desktop_coordinates.top <= i32::MAX
}

/// The enumeration can be indexed in 32 bits and the extent of every
/// attached output can be computed.
pub open spec fn enumeration_fits(adapters: Seq<AdapterOutputs>) -> bool {
    &&& adapters.len() <= u32::MAX
    &&& forall|a: int|
        0 <= a < adapters.len() ==> (#[trigger] adapters[a]).outputs@.len() <= u32::MAX
    &&& forall|a: int, o: int|
        0 <= a < adapters.len() && 0 <= o < adapters[a].outputs@.len()
            && (#[trigger] adapters[a].outputs@[o]).attached_to_desktop ==> extent_fits(
            adapters[a].outputs@[o],
        )
    &&& all_attached_outputs(adapters).len() <= u32::MAX
}

proof fn lemma_attached_outputs_of_bounds(a: int, outputs: Seq<OutputDesc>, m: int)
    requires
        0 <= m <= outputs.len(),
    ensures
        attached_outputs_of(a, outputs, m).len() <= m,
        forall|k: int|
            0 <= k < attached_outputs_of(a, outputs, m).len() ==> {
                let pos = #[trigger] attached_outputs_of(a, outputs, m)[k];
                &&& pos.0 == a
                &&& 0 <= pos.1 < m
                &&& outputs[pos.1].attached_to_desktop
            },
    decreases m,
{
    if m > 0 {
        lemma_attached_outputs_of_bounds(a, outputs, m - 1);
    }
}

proof fn lemma_attached_outputs_bounds(adapters: Seq<AdapterOutputs>, n: int)
    requires
        0 <= n <= adapters.len(),
    ensures
        attached_outputs(adapters, n).len() <= all_attached_outputs(adapters).len(),
        forall|k: int|
            0 <= k < attached_outputs(adapters, n).len() ==> attached_outputs(adapters, n)[k]
                == #[trigger] all_attached_outputs(adapters)[k],
    decreases adapters.len() - n,
{
    if n < adapters.len() {
        lemma_attached_outputs_bounds(adapters, n + 1);
        let prev = attached_outputs(adapters, n);
        let next = attached_outputs(adapters, n + 1);
        assert forall|k: int| 0 <= k < prev.len() implies prev[k] == next[k] by {}
    }
}

/// Lists the attached outputs of the given adapters, in enumeration order,
/// as displays: each gets its stable id, its position among the attached
/// outputs, its device name, a description made of the adapter's name and
/// its own, and the size of its desktop area. Fails when no output is
/// attached.
pub fn build_display_list(adapters: &[AdapterOutputs]) -> (res: Result<
    Vec<DisplayEntry>,
    CaptureError,
>)
    requires
        enumeration_fits(adapters@),
    ensures
        res is Err <==> all_attached_outputs(adapters@).len() == 0,
        res matches Err(e) ==> e == CaptureError::NoAttachedOutput,
        res matches Ok(entries) ==> {
            &&& entries@.len() == all_attached_outputs(adapters@).len()
            &&& forall|k: int|
                0 <= k < entries@.len() ==> {
                    let pos = all_attached_outputs(adapters@)[k];
                    &&& (#[trigger] entries@[k]).adapter_index == pos.0
                    &&& entries@[k].output_index == pos.1
                    &&& entries@[k].info@ == display_info_at(adapters@, pos, k)
                }
        },
{
    let mut displays: Vec<DisplayEntry> = Vec::new();
    let mut display_index: u32 = 0;
    let n_adapters = adapters.len();
    let mut adapter_index: usize = 0;
    while adapter_index < n_adapters
        invariant
            n_adapters == adapters@.len(),
            enumeration_fits(adapters@),
            adapter_index <= n_adapters,
            displays@.len() == display_index,
            displays@.len() == attached_outputs(adapters@, adapter_index as int).len(),
            forall|k: int|
                0 <= k < displays@.len() ==> {
                    let pos = attached_outputs(adapters@, adapter_index as int)[k];
                    &&& (#[trigger] displays@[k]).adapter_index == pos.0
                    &&& displays@[k].output_index == pos.1
                    &&& displays@[k].info@ == display_info_at(adapters@, pos, k)
                },
        decreases n_adapters - adapter_index,
    {
        let adapter = &adapters[adapter_index];
        let adapter_name = wide_string(adapter.description.as_slice());
        let n_outputs = adapter.outputs.len();
        let ghost base = attached_outputs(adapters@, adapter_index as int);
        let ghost outs = adapters@[adapter_index as int].outputs@;
        proof {
            lemma_attached_outputs_bounds(adapters@, adapter_index as int + 1);
            lemma_attached_outputs_of_bounds(adapter_index as int, outs, outs.len() as int);
            assert(attached_outputs(adapters@, adapter_index as int + 1) == base
                + attached_outputs_of(adapter_index as int, outs, outs.len() as int));
        }
        let mut output_index: usize = 0;
        while output_index < n_outputs
            invariant
                n_adapters == adapters@.len(),
                enumeration_fits(adapters@),
                adapter_index < n_adapters,
                *adapter == adapters@[adapter_index as int],
                outs == adapter.outputs@,
                n_outputs == outs.len(),
                adapter_name@ == spec_wide_string(adapter.description@),
                base == attached_outputs(adapters@, adapter_index as int),
                base.len() + attached_outputs_of(adapter_index as int, outs, outs.len() as int).len()
                    <= all_attached_outputs(adapters@).len(),
                output_index <= n_outputs,
                displays@.len() == display_index,
                displays@.len() == base.len() + attached_outputs_of(
                    adapter_index as int,
                    outs,
                    output_index as int,
                ).len(),
                forall|k: int|
                    0 <= k < displays@.len() ==> {
                        let pos = (base + attached_outputs_of(
                            adapter_index as int,
                            outs,
                            output_index as int,
                        ))[k];
                        &&& (#[trigger] displays@[k]).adapter_index == pos.0
                        &&& displays@[k].output_index == pos.1
                        &&& displays@[k].info@ == display_info_at(adapters@, pos, k)
                    },
            decreases n_outputs - output_index,
        {
            let desc = &adapter.outputs[output_index];
            let ghost prev = attached_outputs_of(adapter_index as int, outs, output_index as int);
            proof {
                lemma_attached_outputs_of_bounds(adapter_index as int, outs, output_index as int + 1);
                lemma_attached_outputs_of_bounds(adapter_index as int, outs, outs.len() as int);
                lemma_attached_prefix_len(adapter_index as int, outs, output_index as int + 1, outs.len() as int);
            }
            if desc.attached_to_desktop {
                proof {
                    assert(adapters@[adapter_index as int].outputs@[output_index as int] == *desc);
                }
                let name = output_name(desc);
                let description = windows_display_description(adapter_name.as_str(), name.as_str());
                let info = DisplayInfo {
                    id: windows_display_id(adapter_index as u32, output_index as u32),
                    index: display_index,
                    name: name,
                    description: description,
                    width: display_width(desc),
                    height: display_height(desc),
                };
                let entry = DisplayEntry {
                    adapter_index: adapter_index as u32,
                    output_index: output_index as u32,
                    info: info,
                };
                displays.push(entry);
                display_index = display_index + 1;
                proof {
                    let cur = base + attached_outputs_of(
                        adapter_index as int,
                        outs,
                        output_index as int + 1,
                    );
                    assert(cur =~= base + prev + seq![(adapter_index as int, output_index as int)]);
                    let k = displays@.len() - 1;
                    assert(cur[k] == (adapter_index as int, output_index as int));
                    assert(displays@[k].info@ == display_info_at(adapters@, cur[k], k));
                    assert forall|j: int| 0 <= j < displays@.len() implies {
                        let pos = cur[j];
                        &&& (#[trigger] displays@[j]).adapter_index == pos.0
                        &&& displays@[j].output_index == pos.1
                        &&& displays@[j].info@ == display_info_at(adapters@, pos, j)
                    } by {
                        if j < k {
                            assert(cur[j] == (base + prev)[j]);
                        }
                    }
                }
            } else {
                proof {
                    assert(base + attached_outputs_of(adapter_index as int, outs, output_index as int + 1)
                        =~= base + prev);
                }
            }
            output_index = output_index + 1;
        }
        adapter_index = adapter_index + 1;
    }
    if displays.len() == 0 {
        return Err(CaptureError::NoAttachedOutput);
    }
    Ok(displays)
}

/// `attached_outputs_of` grows with `m`.
proof fn lemma_attached_prefix_len(a: int, outputs: Seq<OutputDesc>, m1: int, m2: int)
    requires
        0 <= m1 <= m2 <= outputs.len(),
    ensures
        attached_outputs_of(a, outputs, m1).len() <= attached_outputs_of(a, outputs, m2).len(),
    decreases m2 - m1,
{
    if m1 < m2 {
        lemma_attached_prefix_len(a, outputs, m1, m2 - 1);
    }
}

/// Whether display `i` is the first one whose id is `id`.
pub open spec fn is_first_with_id(displays: Seq<DisplayInfo>, id: Seq<char>, i: int) -> bool {
    &&& 0 <= i < displays.len()
    &&& displays[i].id@ == id
    &&& forall|j: int| 0 <= j < i ==> (#[trigger] displays[j]).id@ != id
}

/// Chooses the display to capture: the first one whose id is `display_id`
/// when an id is given, the first display otherwise. Returns its position.
pub fn select_output(displays: &[DisplayInfo], display_id: Option<&str>) -> (res: Result<
    usize,
    CaptureError,
>)
    ensures
        displays@.len() == 0 ==> res == Err::<usize, CaptureError>(CaptureError::NoAttachedOutput),
        displays@.len() > 0 && display_id is None ==> res == Ok::<usize, CaptureError>(0),
        display_id matches Some(id) ==> displays@.len() > 0 ==> {
            &&& res matches Ok(i) ==> is_first_with_id(displays@, id@, i as int)
            &&& res is Err <==> forall|j: int|
                0 <= j < displays@.len() ==> (#[trigger] displays@[j]).id@ != id@
            &&& res matches Err(e) ==> (e matches CaptureError::DisplayNotAvailable(s) && s@
                == id@)
        },
{
    if displays.len() == 0 {
        return Err(CaptureError::NoAttachedOutput);
    }
    match display_id {
        Some(id) => {
            let mut i: usize = 0;
            while i < displays.len()
                invariant
                    display_id == Some(id),
                    displays@.len() > 0,
                    i <= displays@.len(),
                    forall|j: int| 0 <= j < i ==> (#[trigger] displays@[j]).id@ != id@,
                decreases displays@.len() - i,
            {
                if str_eq(displays[i].id.as_str(), id) {
                    return Ok(i);
                }
                i = i + 1;
            }
            Err(CaptureError::DisplayNotAvailable(String::from_str(id)))
        },
        None => Ok(0),
    }
}

/// A subresource mapped for CPU reads: its bytes (`None` when the mapping
/// has no memory) and the distance in bytes between the starts of two rows.
pub struct MappedSubresource<'a> {
    pub data: Option<&'a [u8]>,
    pub row_pitch: u32,
}

/// The rows of a pitched image packed tightly: byte `c` of row `r` of the
/// result is byte `c` of row `r` of the source.
pub open spec fn packed_rows(src: Seq<u8>, row_pitch: int, bytes_per_row: int, height: int) -> Seq<
    u8,
> {
    Seq::new(
        (bytes_per_row * height) as nat,
        |i: int| src[(i / bytes_per_row) * row_pitch + i % bytes_per_row],
    )
}

/// The mapped memory holds every row that is read: when the checks pass,
/// the last row ends within the mapping.
pub open spec fn mapping_covers_frame(mapped: MappedSubresource, width: u32, height: u32) -> bool {
    mapped.data matches Some(d) ==> (height == 0 || mapped.row_pitch < 4 * width || (height - 1)
        * mapped.row_pitch + 4 * width <= d@.len())
}

/// What copying a mapped frame yields: the tightly packed pixels and their
/// row stride, or the first check that fails.
pub open spec fn spec_copy_mapped_frame(
    data: Option<Seq<u8>>,
    row_pitch: u32,
    width: u32,
    height: u32,
) -> Result<(Seq<u8>, u32), CaptureError> {
    let bytes_per_row = 4 * width;
    if bytes_per_row > usize::MAX {
        Err(CaptureError::RowSizeOverflow)
    } else if data is None {
        Err(CaptureError::NullMapping)
    } else if row_pitch < bytes_per_row {
        Err(CaptureError::RowPitchTooSmall { row_pitch, bytes_per_row: bytes_per_row as usize })
    } else if bytes_per_row > u32::MAX {
        Err(CaptureError::StrideOverflow)
    } else if bytes_per_row * height > usize::MAX {
        Err(CaptureError::BufferSizeOverflow)
    } else {
        Ok((packed_rows(data->0, row_pitch as int, bytes_per_row, height as int), bytes_per_row as u32))
    }
}

proof fn lemma_row_offsets(row: int, c: int, height: int, pitch: int, bpr: int)
    requires
        0 <= row < height,
        0 <= c < bpr,
        bpr <= pitch,
    ensures
        0 <= row * pitch + c < (height - 1) * pitch + bpr,
        0 <= row * bpr + c < bpr * height,
        (row * bpr + c) / bpr == row,
        (row * bpr + c) % bpr == c,
        row * bpr + bpr == (row + 1) * bpr,
{
    assert(0 <= row * pitch <= (height - 1) * pitch) by (nonlinear_arith)
        requires
            0 <= row <= height - 1,
            0 <= pitch,
    ;
    assert(row * bpr + c < bpr * height) by (nonlinear_arith)
        requires
            0 <= row < height,
            0 <= c < bpr,
    ;
    assert(0 <= row * bpr) by (nonlinear_arith)
        requires
            0 <= row,
            0 <= bpr,
    ;
    assert(row * bpr + bpr == (row + 1) * bpr) by (nonlinear_arith);
    vstd::arithmetic::div_mod::lemma_fundamental_div_mod_converse(row * bpr + c, bpr, row, c);
}

/// Copies a mapped frame into a tightly packed buffer of `4 * width` bytes
/// per row and returns it with that row stride, after checking that the
/// sizes fit and that the mapping has memory and wide enough rows.
pub fn copy_mapped_frame(
    mapped: &MappedSubresource,
    width: u32,
    height: u32,
    format: ShmPixelFormat,
) -> (res: Result<(Vec<u8>, u32), CaptureError>)
    requires
        mapping_covers_frame(*mapped, width, height),
    ensures
        spec_copy_mapped_frame(
            match mapped.data {
                Some(d) => Some(d@),
                None => None,
            },
            mapped.row_pitch,
            width,
            height,
        ) == match res {
            Ok((data, stride)) => Ok((data@, stride)),
            Err(e) => Err(e),
        },
{
    let bytes_per_row = match (width as usize).checked_mul(4) {
        Some(b) => b,
        None => return Err(CaptureError::RowSizeOverflow),
    };
    let src_stride = mapped.row_pitch as usize;
    let rows = height as usize;
    let src = match mapped.data {
        Some(d) => d,
        None => return Err(CaptureError::NullMapping),
    };
    if src_stride < bytes_per_row {
        return Err(CaptureError::RowPitchTooSmall { row_pitch: mapped.row_pitch, bytes_per_row });
    }
    if bytes_per_row > u32::MAX as usize {
        return Err(CaptureError::StrideOverflow);
    }
    let dst_stride = bytes_per_row as u32;
    let size = match bytes_per_row.checked_mul(rows) {
        Some(s) => s,
        None => return Err(CaptureError::BufferSizeOverflow),
    };
    let src_len = src.len();
    let mut data: Vec<u8> = Vec::with_capacity(size);
    let mut row: usize = 0;
    while row < rows
        invariant
            src_stride == mapped.row_pitch,
            bytes_per_row == 4 * width,
            bytes_per_row <= src_stride,
            rows == height,
            size == bytes_per_row * rows,
            rows == 0 || (rows - 1) * src_stride + bytes_per_row <= src@.len(),
            src_len == src@.len(),
            row <= rows,
            data@.len() == row * bytes_per_row,
            forall|i: int|
                0 <= i < data@.len() ==> #[trigger] data@[i] == src@[(i / bytes_per_row as int)
                    * src_stride + i % (bytes_per_row as int)],
        decreases rows - row,
    {
        let mut c: usize = 0;
        while c < bytes_per_row
            invariant
                src_stride == mapped.row_pitch,
                bytes_per_row == 4 * width,
                bytes_per_row <= src_stride,
                rows == height,
                size == bytes_per_row * rows,
                rows == 0 || (rows - 1) * src_stride + bytes_per_row <= src@.len(),
                src_len == src@.len(),
                row < rows,
                c <= bytes_per_row,
                data@.len() == row * bytes_per_row + c,
                forall|i: int|
                    0 <= i < data@.len() ==> #[trigger] data@[i] == src@[(i / bytes_per_row as int)
                        * src_stride + i % (bytes_per_row as int)],
            decreases bytes_per_row - c,
        {
            proof {
                lemma_row_offsets(
                    row as int,
                    c as int,
                    rows as int,
                    src_stride as int,
                    bytes_per_row as int,
                );
            }
            let src_offset = row * src_stride;
            data.push(src[src_offset + c]);
            c = c + 1;
        }
        proof {
            if bytes_per_row > 0 {
                lemma_row_offsets(row as int, 0, rows as int, src_stride as int, bytes_per_row as int);
            } else {
                assert(row * bytes_per_row == 0 && (row + 1) * bytes_per_row == 0) by (nonlinear_arith)
                    requires
                        bytes_per_row == 0,
                ;
            }
        }
        row = row + 1;
    }
    // BGRA / BGRX byte order in memory matches little-endian ARGB / XRGB.
    let _format = match format {
        ShmPixelFormat::Argb8888 => ShmPixelFormat::Argb8888,
        ShmPixelFormat::Xrgb8888 => ShmPixelFormat::Xrgb8888,
    };
    proof {
        assert(rows * bytes_per_row == bytes_per_row * rows) by (nonlinear_arith);
        assert(data@ =~= packed_rows(src@, src_stride as int, bytes_per_row as int, rows as int));
    }
    Ok((data, dst_stride))
}

/// `D3D11_USAGE_STAGING`.
pub const D3D11_USAGE_STAGING: i32 = 3;
/// `D3D11_CPU_ACCESS_READ`.
pub const D3D11_CPU_ACCESS_READ: u32 = 0x20000;

/// Multisampling parameters of a texture (`DXGI_SAMPLE_DESC`).
#[derive(Debug, Clone, Copy, PartialEq, Eq, Structural)]
pub struct SampleDesc {
    pub count: u32,
    pub quality: u32,
}

/// A 2D texture description (`D3D11_TEXTURE2D_DESC`).
#[derive(Debug, Clone, Copy, PartialEq, Eq, Structural)]
pub struct TextureDesc {
    pub width: u32,
    pub height: u32,
    pub mip_levels: u32,
    pub array_size: u32,
    pub format: i32,
    pub sample_desc: SampleDesc,
    pub usage: i32,
    pub bind_flags: u32,
    pub cpu_access_flags: u32,
    pub misc_flags: u32,
}

/// The description of a CPU-readable staging copy of a texture: same size,
/// format and sampling, one mip level, one array slice, staging usage with
/// read access and no binding.
pub open spec fn spec_staging_desc(source: TextureDesc) -> TextureDesc {
    TextureDesc {
        width: source.width,
        height: source.height,
        mip_levels: 1,
        array_size: 1,
        format: source.format,
        sample_desc: source.sample_desc,
        usage: D3D11_USAGE_STAGING,
        bind_flags: 0,
        cpu_access_flags: D3D11_CPU_ACCESS_READ,
        misc_flags: 0,
    }
}

/// Whether the staging texture must be (re)created for a source texture:
/// when there is none, or when its size or format differ from the source's.
pub open spec fn staging_needs_recreate(existing: Option<TextureDesc>, source: TextureDesc) -> bool {
    match existing {
        Some(e) => e.width != source.width || e.height != source.height || e.format != source.format,
        None => true,
    }
}

/// Decides what to do with the staging texture before copying a frame
/// described by `source`: `None` keeps the existing one, `Some(desc)` asks
/// for a new staging texture described by `desc`.
pub fn plan_staging_texture(existing: Option<TextureDesc>, source: &TextureDesc) -> (plan: Option<
    TextureDesc,
>)
    ensures
        plan is Some <==> staging_needs_recreate(existing, *source),
        plan matches Some(desc) ==> desc == spec_staging_desc(*source),
{
    let recreate = match existing {
        Some(e) => e.width != source.width || e.height != source.height || e.format != source.format,
        None => true,
    };
    if !recreate {
        return None;
    }
    Some(
        TextureDesc {
            width: source.width,
            height: source.height,
            mip_levels: 1,
            array_size: 1,
            format: source.format,
            sample_desc: source.sample_desc,
            usage: D3D11_USAGE_STAGING,
            bind_flags: 0,
            cpu_access_flags: D3D11_CPU_ACCESS_READ,
            misc_flags: 0,
        },
    )
}

/// The description of the staging texture held, if any.
pub open spec fn held_staging_desc<T>(current: Option<(T, TextureDesc)>) -> Option<TextureDesc> {
    match current {
        Some(held) => Some(held.1),
        None => None,
    }
}

/// The capture loop's staging texture: the texture object, of a type `T`
/// that this library does not look into, with the description it was made
/// with.
pub struct StagingState<T> {
    pub current: Option<(T, TextureDesc)>,
}

impl<T> StagingState<T> {
    /// No staging texture yet.
    pub fn new() -> (state: Self)
        ensures
            state.current is None,
    {
        StagingState { current: None }
    }

    /// Decides what to do with the staging texture before copying a frame
    /// described by `source`: `None` keeps the one held, `Some(desc)` asks
    /// for a new one described by `desc`.
    pub fn plan(&self, source: &TextureDesc) -> (plan: Option<TextureDesc>)
        ensures
            plan is Some <==> staging_needs_recreate(held_staging_desc(self.current), *source),
            plan matches Some(desc) ==> desc == spec_staging_desc(*source),
    {
        let existing = match &self.current {
            Some(held) => Some(held.1),
            None => None,
        };
        plan_staging_texture(existing, source)
    }

    /// Holds a staging texture just created with `desc`, in place of the
    /// previous one. A creation that failed leaves the state as it was.
    pub fn install(&mut self, texture: T, desc: TextureDesc)
        ensures
            final(self).current == Some((texture, desc)),
    {
        self.current = Some((texture, desc));
    }

    /// The duplication session was recreated after access was lost: the
    /// staging texture made for the old session is dropped.
    pub fn on_duplication_recreated(&mut self)
        ensures
            final(self).current is None,
    {
        self.current = None;
    }
}

/// After the duplication session is recreated, the next frame always gets
/// a new staging texture, made for that frame.
pub proof fn law_staging_after_recreate<T>(source: TextureDesc)
    ensures
        staging_needs_recreate(held_staging_desc(None::<(T, TextureDesc)>), source),
{
}

/// A staging texture installed as planned for a source is kept for every
/// later frame of the same size and format.
pub proof fn law_installed_staging_kept<T>(texture: T, source: TextureDesc, next: TextureDesc)
    requires
        next.width == source.width,
        next.height == source.height,
        next.format == source.format,
    ensures
        !staging_needs_recreate(
            held_staging_desc(Some((texture, spec_staging_desc(source)))),
            next,
        ),
{
}

/// How an attempt to acquire the next desktop frame ended.
#[derive(Debug, Clone, Copy, PartialEq, Eq, Structural)]
pub enum AcquireOutcome {
    /// A frame was acquired.
    Acquired,
    /// No new frame within the timeout (`DXGI_ERROR_WAIT_TIMEOUT`).
    WaitTimeout,
    /// The duplication session was invalidated (`DXGI_ERROR_ACCESS_LOST`).
    AccessLost,
    /// Any other failure.
    Failed,
}

/// What the capture loop does next.
#[derive(Debug, Clone, Copy, PartialEq, Eq, Structural)]
pub enum PumpStep {
    /// Copy the acquired frame out and hand it on; the pump then returns.
    CopyFrame,
    /// Try to acquire a frame again.
    Retry,
    /// Recreate the duplication session, drop the staging texture, and try
    /// again.
    RecreateDuplication,
    /// Give up with an error.
    Fail,
}

/// The capture loop's decision after an acquisition attempt.
pub open spec fn spec_pump_step(outcome: AcquireOutcome) -> PumpStep {
    match outcome {
        AcquireOutcome::Acquired => PumpStep::CopyFrame,
        AcquireOutcome::WaitTimeout => PumpStep::Retry,
        AcquireOutcome::AccessLost => PumpStep::RecreateDuplication,
        AcquireOutcome::Failed => PumpStep::Fail,
    }
}

/// Decides the capture loop's next step from how acquiring a frame ended:
/// copy an acquired frame, wait again on a timeout, recreate the session
/// when access is lost, fail otherwise.
pub fn pump_step(outcome: AcquireOutcome) -> (step: PumpStep)
    ensures
        step == spec_pump_step(outcome),
{
    match outcome {
        AcquireOutcome::Acquired => PumpStep::CopyFrame,
        AcquireOutcome::WaitTimeout => PumpStep::Retry,
        AcquireOutcome::AccessLost => PumpStep::RecreateDuplication,
        AcquireOutcome::Failed => PumpStep::Fail,
    }
}

/// Guard that stands for an acquired frame of a duplication session `D`:
/// while it is active, the frame must be released when the guard goes.
pub struct ReleaseFrameGuard<'a, D> {
    pub duplication: &'a D,
    pub active: bool,
}

impl<'a, D> ReleaseFrameGuard<'a, D> {
    /// An active guard for a frame just acquired from `duplication`.
    pub fn new(duplication: &'a D) -> (guard: Self)
        ensures
            guard.duplication == duplication,
            guard.active,
    {
        Self { duplication, active: true }
    }
}

#[verifier::external_type_specification]
#[verifier::external_body]
pub struct ExSystemTime(SystemTime);

/// Calls `SystemTime::now`: the current system time, which nothing relates
/// to any other value.
#[verifier::external_body]
fn system_time_now() -> SystemTime {
    SystemTime::now()
}

/// Calls `SystemTime::duration_since` with `UNIX_EPOCH`: `Some` of the time
/// elapsed since the epoch, or `None` when `time` lies before it. Nothing is
/// stated of the result, which depends on the clock.
#[verifier::external_body]
fn duration_since_unix_epoch(time: &SystemTime) -> Option<Duration> {
    time.duration_since(std::time::UNIX_EPOCH).ok()
}

/// Calls `Duration::as_micros`: the whole microseconds in `duration`. The
/// duration is opaque here, so nothing is stated of the result.
#[verifier::external_body]
fn duration_as_micros(duration: &Duration) -> u128 {
    duration.as_micros()
}

/// The capture timestamp for a clock reading: the microseconds since the
/// Unix epoch truncated to 64 bits, or 0 when the clock is before the epoch.
pub fn timestamp_us_from_micros(micros_since_epoch: Option<u128>) -> (ts: u64)
    ensures
        ts == match micros_since_epoch {
            Some(m) => m as u64,
            None => 0u64,
        },
{
    match micros_since_epoch {
        Some(m) => #[verifier::truncate] (m as u64),
        None => 0,
    }
}

/// Microseconds since the Unix epoch, from the system clock; 0 when the
/// clock is set before the epoch.
pub fn capture_timestamp_us() -> u64 {
    let now = system_time_now();
    let micros = match duration_since_unix_epoch(&now) {
        Some(elapsed) => Some(duration_as_micros(&elapsed)),
        None => None,
    };
    timestamp_us_from_micros(micros)
}

/// Packing is the identity on rows that are already tight: when the row
/// pitch equals the row size, the packed frame is the first
/// `bytes_per_row * height` mapped bytes.
pub proof fn law_packed_rows_tight(src: Seq<u8>, bytes_per_row: int, height: int)
    requires
        0 < bytes_per_row,
        0 <= height,
        bytes_per_row * height <= src.len(),
    ensures
        packed_rows(src, bytes_per_row, bytes_per_row, height) == src.subrange(
            0,
            bytes_per_row * height,
        ),
{
    let packed = packed_rows(src, bytes_per_row, bytes_per_row, height);
    assert forall|i: int| 0 <= i < bytes_per_row * height implies packed[i] == src[i] by {
        vstd::arithmetic::div_mod::lemma_fundamental_div_mod(i, bytes_per_row);
        assert((i / bytes_per_row) * bytes_per_row == bytes_per_row * (i / bytes_per_row))
            by (nonlinear_arith);
    }
    assert(packed =~= src.subrange(0, bytes_per_row * height));
}

proof fn lemma_display_id_injective(a1: u32, o1: u32, a2: u32, o2: u32)
    requires
        spec_windows_display_id(a1, o1) == spec_windows_display_id(a2, o2),
    ensures
        a1 == a2,
        o1 == o2,
{
    let d1 = decimal(a1 as nat);
    let e1 = decimal(o1 as nat);
    let d2 = decimal(a2 as nat);
    let e2 = decimal(o2 as nat);
    lemma_decimal_digits(a1 as nat);
    lemma_decimal_digits(o1 as nat);
    lemma_decimal_digits(a2 as nat);
    lemma_decimal_digits(o2 as nat);
    let prefix = seq!['w', 'i', 'n', 'd', 'o', 'w', 's', ':'];
    let s1 = prefix + d1 + seq![':'] + e1;
    let s2 = prefix + d2 + seq![':'] + e2;
    assert(s1 == spec_windows_display_id(a1, o1));
    assert(s2 == spec_windows_display_id(a2, o2));
    assert(!is_digit_char(':'));
    if d1.len() < d2.len() {
        assert(s1[8 + d1.len() as int] == ':');
        assert(s2[8 + d1.len() as int] == d2[d1.len() as int]);
        assert(false);
    }
    if d2.len() < d1.len() {
        assert(s2[8 + d2.len() as int] == ':');
        assert(s1[8 + d2.len() as int] == d1[d2.len() as int]);
        assert(false);
    }
    assert(d1 =~= s1.subrange(8, 8 + d1.len() as int));
    assert(d2 =~= s2.subrange(8, 8 + d2.len() as int));
    assert(e1 =~= s1.subrange(9 + d1.len() as int, s1.len() as int));
    assert(e2 =~= s2.subrange(9 + d2.len() as int, s2.len() as int));
    lemma_decimal_injective(a1 as nat, a2 as nat);
    lemma_decimal_injective(o1 as nat, o2 as nat);
}

proof fn lemma_attached_outputs_of_sorted(a: int, outputs: Seq<OutputDesc>, m: int)
    requires
        0 <= m <= outputs.len(),
    ensures
        forall|k1: int, k2: int|
            0 <= k1 < k2 < attached_outputs_of(a, outputs, m).len() ==> (#[trigger] attached_outputs_of(
                a,
                outputs,
                m,
            )[k1]).1 < (#[trigger] attached_outputs_of(a, outputs, m)[k2]).1,
    decreases m,
{
    if m > 0 {
        lemma_attached_outputs_of_sorted(a, outputs, m - 1);
        lemma_attached_outputs_of_bounds(a, outputs, m - 1);
    }
}

/// Positions are listed in strictly increasing (adapter, output) order.
proof fn lemma_attached_outputs_sorted(adapters: Seq<AdapterOutputs>, n: int)
    requires
        0 <= n <= adapters.len(),
    ensures
        forall|k: int|
            0 <= k < attached_outputs(adapters, n).len() ==> {
                let pos = #[trigger] attached_outputs(adapters, n)[k];
                &&& 0 <= pos.0 < n
                &&& 0 <= pos.1 < adapters[pos.0].outputs@.len()
            },
        forall|k1: int, k2: int|
            0 <= k1 < k2 < attached_outputs(adapters, n).len() ==> {
                let p = #[trigger] attached_outputs(adapters, n)[k1];
                let q = #[trigger] attached_outputs(adapters, n)[k2];
                p.0 < q.0 || (p.0 == q.0 && p.1 < q.1)
            },
    decreases n,
{
    if n > 0 {
        lemma_attached_outputs_sorted(adapters, n - 1);
        let outs = adapters[n - 1].outputs@;
        lemma_attached_outputs_of_bounds(n - 1, outs, outs.len() as int);
        lemma_attached_outputs_of_sorted(n - 1, outs, outs.len() as int);
        let prev = attached_outputs(adapters, n - 1);
        let own = attached_outputs_of(n - 1, outs, outs.len() as int);
        let all = attached_outputs(adapters, n);
        assert(all == prev + own);
        assert forall|k: int| 0 <= k < all.len() implies {
            let pos = #[trigger] all[k];
            &&& 0 <= pos.0 < n
            &&& 0 <= pos.1 < adapters[pos.0].outputs@.len()
        } by {
            if k < prev.len() {
                assert(all[k] == prev[k]);
            } else {
                assert(all[k] == own[k - prev.len()]);
            }
        }
        assert forall|k1: int, k2: int| 0 <= k1 < k2 < all.len() implies {
            let p = #[trigger] all[k1];
            let q = #[trigger] all[k2];
            p.0 < q.0 || (p.0 == q.0 && p.1 < q.1)
        } by {
            if k2 < prev.len() {
                assert(all[k1] == prev[k1]);
                assert(all[k2] == prev[k2]);
            } else if k1 < prev.len() {
                assert(all[k1] == prev[k1]);
                assert(all[k2] == own[k2 - prev.len()]);
            } else {
                assert(all[k1] == own[k1 - prev.len()]);
                assert(all[k2] == own[k2 - prev.len()]);
            }
        }
    }
}

/// Ids are unique: no two displays listed for the same enumeration share an
/// id.
pub proof fn law_display_ids_distinct(adapters: Seq<AdapterOutputs>, k1: int, k2: int)
    requires
        enumeration_fits(adapters),
        0 <= k1 < all_attached_outputs(adapters).len(),
        0 <= k2 < all_attached_outputs(adapters).len(),
        k1 != k2,
    ensures
        display_info_at(adapters, all_attached_outputs(adapters)[k1], k1).id != display_info_at(
            adapters,
            all_attached_outputs(adapters)[k2],
            k2,
        ).id,
{
    let all = all_attached_outputs(adapters);
    lemma_attached_outputs_sorted(adapters, adapters.len() as int);
    let p = all[k1];
    let q = all[k2];
    assert(adapters[p.0].outputs@.len() <= u32::MAX);
    assert(adapters[q.0].outputs@.len() <= u32::MAX);
    if spec_windows_display_id(p.0 as u32, p.1 as u32) == spec_windows_display_id(
        q.0 as u32,
        q.1 as u32,
    ) {
        lemma_display_id_injective(p.0 as u32, p.1 as u32, q.0 as u32, q.1 as u32);
        if k1 < k2 {
            assert(p.0 < q.0 || (p.0 == q.0 && p.1 < q.1));
        } else {
            assert(q.0 < p.0 || (q.0 == p.0 && q.1 < p.1));
        }
    }
}

/// Selecting a listed display by its id finds that display: in the list
/// that enumeration builds, display `k` is the first one with its id.
pub proof fn law_select_listed_id(adapters: Seq<AdapterOutputs>, displays: Seq<DisplayInfo>, k: int)
    requires
        enumeration_fits(adapters),
        displays.len() == all_attached_outputs(adapters).len(),
        forall|j: int|
            0 <= j < displays.len() ==> (#[trigger] displays[j])@ == display_info_at(
                adapters,
                all_attached_outputs(adapters)[j],
                j,
            ),
        0 <= k < displays.len(),
    ensures
        is_first_with_id(displays, displays[k].id@, k),
{
    assert forall|j: int| 0 <= j < k implies (#[trigger] displays[j]).id@ != displays[k].id@ by {
        law_display_ids_distinct(adapters, j, k);
        assert(displays[j]@.id == displays[j].id@);
        assert(displays[k]@.id == displays[k].id@);
    }
}

/// Staging follows the frame: a new staging texture is planned when none is
/// held, and whenever the frame's width, height or format differs from the
/// held one's; it is kept exactly when all three agree. The texture planned
/// has the frame's width, height, format and sampling, and is a
/// CPU-readable staging texture.
pub proof fn law_staging_follows_frame(held: TextureDesc, source: TextureDesc)
    ensures
        staging_needs_recreate(None, source),
        held.width != source.width ==> staging_needs_recreate(Some(held), source),
        held.height != source.height ==> staging_needs_recreate(Some(held), source),
        held.format != source.format ==> staging_needs_recreate(Some(held), source),
        (held.width == source.width && held.height == source.height && held.format
            == source.format) ==> !staging_needs_recreate(Some(held), source),
        spec_staging_desc(source).width == source.width,
        spec_staging_desc(source).height == source.height,
        spec_staging_desc(source).format == source.format,
        spec_staging_desc(source).sample_desc == source.sample_desc,
        spec_staging_desc(source).usage == D3D11_USAGE_STAGING,
        spec_staging_desc(source).cpu_access_flags == D3D11_CPU_ACCESS_READ,
{
}

/// Extent: the clamped extent between two coordinates is their difference
/// when it is positive and zero otherwise, so it does not change when both
/// coordinates move by the same amount.
pub proof fn law_clamped_extent(low: i32, high: i32, shift: int)
    requires
        i32::MIN <= low + shift <= i32::MAX,
        i32::MIN <= high + shift <= i32::MAX,
    ensures
        clamped_extent(low, high) as int == (if high >= low {
            high - low
        } else {
            0
        }),
        clamped_extent((low + shift) as i32, (high + shift) as i32) == clamped_extent(low, high),
{
}

/// Descriptions: every listed display is named after its output's device
/// name, sized by its output's desktop rectangle, and described as `<trimmed adapter name> / <name>` unless the
/// trimmed adapter name is empty or equal to that name, whatever the other
/// outputs of its adapter are.
pub proof fn law_display_description(adapters: Seq<AdapterOutputs>, k: int)
    requires
        enumeration_fits(adapters),
        0 <= k < all_attached_outputs(adapters).len(),
    ensures
        ({
            let pos = all_attached_outputs(adapters)[k];
            let info = display_info_at(adapters, pos, k);
            let name = spec_wide_string(adapters[pos.0].outputs@[pos.1].device_name@);
            let adapter_name = trim(spec_wide_string(adapters[pos.0].description@));
            &&& info.name == name
            &&& info.index == k
            &&& (info.description is None <==> (adapter_name.len() == 0 || adapter_name
                == name))
            &&& info.description is Some ==> info.description == Some(
                adapter_name + seq![' ', '/', ' '] + name,
            )
            &&& info.width == clamped_extent(
                adapters[pos.0].outputs@[pos.1].desktop_coordinates.left,
                adapters[pos.0].outputs@[pos.1].desktop_coordinates.right,
            )
            &&& info.height == clamped_extent(
                adapters[pos.0].outputs@[pos.1].desktop_coordinates.top,
                adapters[pos.0].outputs@[pos.1].desktop_coordinates.bottom,
            )
        }),
{
    lemma_attached_outputs_bounds(adapters, adapters.len() as int);
}

} // verus!
