//! Decoded video as the face paints it: pictures spread to RGBA, and the
//! caption under them.
use vstd::prelude::*;
use crate::text::{chars_of, decimal, push_decimal, push_str, string_of};

verus! {

/// The pixels of a decoded picture: one luma byte per pixel, or three
/// colour bytes per pixel.
pub enum VideoData<'a> {
    Gray(&'a [u8]),
    Rgb(&'a [u8]),
}

/// A picture of `count` pixels spread to RGBA, opaque: a grey level goes to
/// all three colours; none when the data is shorter than the picture.
pub open spec fn rgba_spec(data: VideoData, count: int) -> Option<Seq<u8>> {
    match data {
        VideoData::Gray(luma) => if luma@.len() < count {
            None
        } else {
            Some(Seq::new((4 * count) as nat, |i: int| if i % 4 == 3 { 255u8 } else { luma@[i / 4] }))
        },
        VideoData::Rgb(pixels) => if pixels@.len() < 3 * count {
            None
        } else {
            Some(Seq::new((4 * count) as nat, |i: int| if i % 4 == 3 { 255u8 } else { pixels@[3 * (i / 4) + i % 4] }))
        },
    }
}

/// A `width` by `height` picture as RGBA bytes, row by row.
pub fn rgba_of(data: VideoData, width: u16, height: u16) -> (rgba: Option<Vec<u8>>)
    ensures
        match rgba {
            Some(bytes) => rgba_spec(data, width * height) == Some(bytes@),
            None => rgba_spec(data, width * height) is None,
        },
{
    assert(width * height <= 65535 * 65535) by (nonlinear_arith)
        requires
            width <= 65535,
            height <= 65535,
    ;
    let count: usize = width as usize * height as usize;
    let mut out: Vec<u8> = Vec::new();
    match data {
        VideoData::Gray(luma) => {
            if luma.len() < count {
                return None;
            }
            let ghost want = Seq::new((4 * count) as nat, |i: int| if i % 4 == 3 { 255u8 } else { luma@[i / 4] });
            let mut k: usize = 0;
            while k < count
                invariant
                    k <= count,
                    count <= luma@.len(),
                    want == Seq::new((4 * count) as nat, |i: int| if i % 4 == 3 { 255u8 } else { luma@[i / 4] }),
                    out@ == want.take(4 * k),
                decreases count - k,
            {
                let v = luma[k];
                out.push(v);
                out.push(v);
                out.push(v);
                out.push(255);
                assert(out@ =~= want.take(4 * (k + 1)));
                k += 1;
            }
            assert(want.take(4 * k) =~= want);
            Some(out)
        },
        VideoData::Rgb(pixels) => {
            let n = pixels.len();
            if n / 3 < count {
                return None;
            }
            let ghost want = Seq::new((4 * count) as nat, |i: int| if i % 4 == 3 { 255u8 } else { pixels@[3 * (i / 4) + i % 4] });
            let mut k: usize = 0;
            while k < count
                invariant
                    k <= count,
                    3 * count <= pixels@.len(),
                    n == pixels@.len(),
                    want == Seq::new((4 * count) as nat, |i: int| if i % 4 == 3 { 255u8 } else { pixels@[3 * (i / 4) + i % 4] }),
                    out@ == want.take(4 * k),
                decreases count - k,
            {
                out.push(pixels[3 * k]);
                out.push(pixels[3 * k + 1]);
                out.push(pixels[3 * k + 2]);
                out.push(255);
                assert(out@ =~= want.take(4 * (k + 1)));
                k += 1;
            }
            assert(want.take(4 * k) =~= want);
            Some(out)
        },
    }
}

/// The caption under a picture: its size, and whether the picture is still
/// in sync; before any picture, that it waits for sync.
pub open spec fn caption_text(geometry: Option<(u16, u16)>, live: bool) -> Seq<char> {
    match geometry {
        None => "waiting for sync"@,
        Some((w, h)) => if live {
            decimal(w as nat) + " \u{d7} "@ + decimal(h as nat)
        } else {
            decimal(w as nat) + " \u{d7} "@ + decimal(h as nat) + " \u{b7} no sync"@
        },
    }
}

/// The caption under a picture.
pub fn caption(geometry: Option<(u16, u16)>, live: bool) -> (text: String)
    ensures
        text@ == caption_text(geometry, live),
{
    match geometry {
        None => string_of(chars_of("waiting for sync").as_slice()),
        Some((w, h)) => {
            let mut out: Vec<char> = Vec::new();
            push_decimal(&mut out, w as u64);
            push_str(&mut out, " \u{d7} ");
            push_decimal(&mut out, h as u64);
            if !live {
                push_str(&mut out, " \u{b7} no sync");
            }
            string_of(out.as_slice())
        },
    }
}

} // verus!
