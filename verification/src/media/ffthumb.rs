//! A thumbnail frame extracted by ffmpeg: what ffmpeg is asked, and what its
//! answer is worth.
//!
//! The frame is taken three seconds in (past most fades and opening logos),
//! seeking before the input is opened, scaled inside ffmpeg to the requested
//! long side with the aspect kept, at eight bits a channel, and written as a
//! PNG to standard output.

use vstd::prelude::*;

use crate::text::{decimal, push_decimal, push_str_chars, string_from_chars, string_of_str};

verus! {

/// Where the frame is taken, in seconds.
pub const MOC_GIAY: u64 = 3;

/// How long ffmpeg may take before it is given up on, in seconds.
pub const HAN_GIAY: u64 = 15;

/// The scale filter for a long side of `co` pixels.
pub open spec fn scale_filter(co: u32) -> Seq<char> {
    "scale="@ + decimal(co as nat) + ":-2:force_original_aspect_ratio=decrease,format=rgb24|rgba"@
}

/// The arguments ffmpeg gets (after its own quiet defaults) to extract the
/// frame of `path` at `co` pixels.
pub open spec fn frame_args(path: Seq<char>, co: u32) -> Seq<Seq<char>> {
    seq![
        "-v"@,
        "error"@,
        "-ss"@,
        decimal(MOC_GIAY as nat),
        "-i"@,
        path,
        "-frames:v"@,
        "1"@,
        "-an"@,
        "-sn"@,
        "-vf"@,
        scale_filter(co),
        "-f"@,
        "image2"@,
        "-c:v"@,
        "png"@,
        "pipe:1"@,
    ]
}

fn push_arg(args: &mut Vec<String>, s: &str)
    ensures
        final(args)@.map_values(|a: String| a@) == old(args)@.map_values(|a: String| a@).push(s@),
{
    let ghost before = args@;
    args.push(string_of_str(s));
    assert(args@.map_values(|a: String| a@) =~= before.map_values(|a: String| a@).push(s@));
}

/// The arguments for extracting the frame of `path` at `co` pixels.
pub fn tham_so_khung(path: &str, co: u32) -> (r: Vec<String>)
    ensures
        r@.map_values(|a: String| a@) == frame_args(path@, co),
{
    let mut args: Vec<String> = Vec::new();
    push_arg(&mut args, "-v");
    push_arg(&mut args, "error");
    push_arg(&mut args, "-ss");
    let mut at: Vec<char> = Vec::new();
    push_decimal(&mut at, MOC_GIAY);
    let ghost before = args@;
    args.push(string_from_chars(at.as_slice()));
    assert(args@.map_values(|a: String| a@) =~= before.map_values(|a: String| a@).push(decimal(MOC_GIAY as nat)));
    push_arg(&mut args, "-i");
    push_arg(&mut args, path);
    push_arg(&mut args, "-frames:v");
    push_arg(&mut args, "1");
    push_arg(&mut args, "-an");
    push_arg(&mut args, "-sn");
    push_arg(&mut args, "-vf");
    let mut f: Vec<char> = Vec::new();
    push_str_chars(&mut f, "scale=");
    push_decimal(&mut f, co as u64);
    push_str_chars(&mut f, ":-2:force_original_aspect_ratio=decrease,format=rgb24|rgba");
    let ghost before2 = args@;
    args.push(string_from_chars(f.as_slice()));
    assert(args@.map_values(|a: String| a@) =~= before2.map_values(|a: String| a@).push(scale_filter(co)));
    push_arg(&mut args, "-f");
    push_arg(&mut args, "image2");
    push_arg(&mut args, "-c:v");
    push_arg(&mut args, "png");
    push_arg(&mut args, "pipe:1");
    assert(args@.map_values(|a: String| a@) =~= frame_args(path@, co));
    args
}

/// What an ffmpeg run gave: the frame when it finished well (`Some(true)`)
/// with some output; nothing when it failed, was given up on (`None`), or
/// wrote nothing.
pub fn ket_qua(xong: Option<bool>, png: Vec<u8>) -> (r: Option<Vec<u8>>)
    ensures
        r == if xong == Some(true) && png@.len() > 0 {
            Some(png)
        } else {
            None::<Vec<u8>>
        },
{
    match xong {
        Some(true) => {
            if png.len() > 0 {
                Some(png)
            } else {
                None
            }
        },
        _ => None,
    }
}

} // verus!
