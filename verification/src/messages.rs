use vstd::prelude::*;

use crate::canvas::Region;

verus! {

/// What base64 (standard alphabet, with padding) encodes a byte sequence
/// to.  The value depends on the bytes alone.
pub uninterp spec fn base64_of(data: Seq<u8>) -> Seq<char>;

/// RGBA expansion of row-major RGB bytes: each pixel's three bytes followed
/// by an alpha byte of 255.
pub open spec fn rgba_of(rgb: Seq<u8>) -> Seq<u8> {
    Seq::new(
        (rgb.len() / 3 * 4) as nat,
        |i: int|
            if i % 4 == 3 {
                255u8
            } else {
                rgb[i / 4 * 3 + i % 4]
            },
    )
}

/// Relies on base64::encode: the standard padded base64 encoding of the
/// bytes, determined by the bytes alone; with padding, four output
/// characters per started group of three input bytes.
#[verifier::external_body]
fn base64_encode(data: &Vec<u8>) -> (r: String)
    ensures
        r@ == base64_of(data@),
        r@.len() == 4 * ((data@.len() + 2) / 3),
{
    base64::encode(data)
}

/// A region as it goes over the wire: its rectangle and its RGBA bytes,
/// base64-encoded.
pub struct RGBARegion {
    pub x: u32,
    pub y: u32,
    pub w: u32,
    pub h: u32,
    pub data: String,
}

/// The mathematical content of a wire region.
pub struct RGBARegionView {
    pub x: u32,
    pub y: u32,
    pub w: u32,
    pub h: u32,
    pub data: Seq<char>,
}

impl View for RGBARegion {
    type V = RGBARegionView;

    open spec fn view(&self) -> RGBARegionView {
        RGBARegionView { x: self.x, y: self.y, w: self.w, h: self.h, data: self.data@ }
    }
}

impl RGBARegion {
    /// Expand a region's RGB bytes to RGBA and encode them as base64.
    pub fn from_region(region: Region) -> (r: RGBARegion)
        ensures
            r.x == region.x,
            r.y == region.y,
            r.w == region.w,
            r.h == region.h,
            r.data@ == base64_of(rgba_of(region.data@)),
    {
        let len = region.data.len();
        let n = len / 3;
        let mut rgba: Vec<u8> = Vec::new();
        let ghost target = rgba_of(region.data@);
        let mut i: usize = 0;
        while i < n
            invariant
                len == region.data@.len(),
                n == region.data@.len() / 3,
                i <= n,
                target == rgba_of(region.data@),
                rgba@.len() == i * 4,
                forall|j: int| 0 <= j < rgba@.len() ==> rgba@[j] == target[j],
            decreases n - i,
        {
            let ghost di = rgba@.len() as int;
            proof {
                assert((i as int) * 3 + 2 < region.data@.len()) by (nonlinear_arith)
                    requires
                        0 <= i < n,
                        n == region.data@.len() / 3,
                ;
            }
            let p0 = region.data[i * 3];
            let p1 = region.data[i * 3 + 1];
            let p2 = region.data[i * 3 + 2];
            rgba.push(p0);
            rgba.push(p1);
            rgba.push(p2);
            rgba.push(255);
            proof {
                assert forall|k: int| #![trigger target[di + k]] 0 <= k < 4 implies rgba@[di + k]
                    == target[di + k] by {
                    let j = di + k;
                    assert(j == 4 * (i as int) + k);
                    assert(j % 4 == k && j / 4 == i) by (nonlinear_arith)
                        requires
                            j == 4 * (i as int) + k,
                            0 <= k < 4,
                            0 <= i,
                    ;
                }
                assert(rgba@[di] == target[di]);
                assert(rgba@[di + 1] == target[di + 1]);
                assert(rgba@[di + 2] == target[di + 2]);
                assert(rgba@[di + 3] == target[di + 3]);
            }
            i += 1;
        }
        proof {
            assert(rgba@ =~= target);
        }
        let data = base64_encode(&rgba);
        RGBARegion { x: region.x, y: region.y, w: region.w, h: region.h, data }
    }
}

/// One outbound frame, before JSON serialization.  Chat coordinates travel
/// as the raw bit patterns of 32-bit float values.
pub enum ClientMessage {
    FullUpdate { w: u32, h: u32, data: String },
    Regions(Vec<RGBARegion>),
    Error { code: String, message: String },
    ChatMessage { x_bits: u32, y_bits: u32, text: String, is_admin: bool },
    Auth(Option<bool>),
    Console(String),
    Broadcast { text: String },
}

/// The mathematical content of an outbound frame.
pub enum FrameView {
    FullUpdate { w: u32, h: u32, data: Seq<char> },
    Regions(Seq<RGBARegionView>),
    Error { code: Seq<char>, message: Seq<char> },
    ChatMessage { x_bits: u32, y_bits: u32, text: Seq<char>, is_admin: bool },
    Auth(Option<bool>),
    Console(Seq<char>),
    Broadcast { text: Seq<char> },
}

impl View for ClientMessage {
    type V = FrameView;

    open spec fn view(&self) -> FrameView {
        match self {
            ClientMessage::FullUpdate { w, h, data } => FrameView::FullUpdate {
                w: *w,
                h: *h,
                data: data@,
            },
            ClientMessage::Regions(rs) => FrameView::Regions(
                rs@.map_values(|r: RGBARegion| r@),
            ),
            ClientMessage::Error { code, message } => FrameView::Error {
                code: code@,
                message: message@,
            },
            ClientMessage::ChatMessage { x_bits, y_bits, text, is_admin } => {
                FrameView::ChatMessage {
                    x_bits: *x_bits,
                    y_bits: *y_bits,
                    text: text@,
                    is_admin: *is_admin,
                }
            },
            ClientMessage::Auth(b) => FrameView::Auth(*b),
            ClientMessage::Console(line) => FrameView::Console(line@),
            ClientMessage::Broadcast { text } => FrameView::Broadcast { text: text@ },
        }
    }
}

} // verus!
