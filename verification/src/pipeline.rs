//! Command lines of the FFmpeg decoder and encoder that frame the blur loop.
use vstd::prelude::*;
use vstd::string::StringExecFns;
use crate::text::{decimal, push_char, push_decimal, str_eq};

verus! {

/// The hardware decoder (NVDEC) for a stream codec, or "" where there is none.
pub open spec fn cuvid_for(codec: Seq<char>) -> Seq<char> {
    if codec == "h264"@ {
        "h264_cuvid"@
    } else if codec == "hevc"@ {
        "hevc_cuvid"@
    } else if codec == "vp9"@ {
        "vp9_cuvid"@
    } else if codec == "av1"@ {
        "av1_cuvid"@
    } else {
        Seq::empty()
    }
}

/// Arguments of the decoder: raw BGR frames of `input` on standard output,
/// decoded with CUDA and, where there is one, the codec's NVDEC decoder.
pub open spec fn dec_args_spec(input: Seq<char>, codec: Seq<char>) -> Seq<Seq<char>> {
    let head = seq!["-loglevel"@, "error"@, "-hwaccel"@, "cuda"@];
    let dec = if cuvid_for(codec).len() > 0 {
        seq!["-c:v"@, cuvid_for(codec)]
    } else {
        Seq::empty()
    };
    head + dec + seq!["-i"@, input, "-f"@, "rawvideo"@, "-pix_fmt"@, "bgr24"@, "pipe:1"@]
}

/// Frame size as FFmpeg's `WxH`.
pub open spec fn size_arg(w: nat, h: nat) -> Seq<char> {
    decimal(w) + "x"@ + decimal(h)
}

/// Arguments of the encoder: raw BGR frames of `w` x `h` at `fps` from
/// standard input into H.264 (NVENC, or libx264 without it), without audio.
pub open spec fn enc_args_spec(output: Seq<char>, w: nat, h: nat, fps: Seq<char>, use_nvenc: bool) -> Seq<Seq<char>> {
    let head = seq![
        "-loglevel"@,
        "error"@,
        "-y"@,
        "-f"@,
        "rawvideo"@,
        "-pix_fmt"@,
        "bgr24"@,
        "-s"@,
        size_arg(w, h),
        "-r"@,
        fps,
        "-i"@,
        "pipe:0"@,
    ];
    let codec = if use_nvenc {
        seq!["-c:v"@, "h264_nvenc"@, "-preset"@, "p4"@, "-cq"@, "18"@]
    } else {
        seq!["-c:v"@, "libx264"@, "-crf"@, "18"@, "-preset"@, "fast"@]
    };
    head + codec + seq!["-pix_fmt"@, "yuv420p"@, "-an"@, output]
}

/// Appends the word `w` to `args`.
pub fn push_word(args: &mut Vec<String>, w: &str)
    ensures
        final(args).deep_view() == old(args).deep_view().push(w@),
{
    args.push(String::from_str(w));
    assert(args.deep_view() =~= old(args).deep_view().push(w@));
}

/// The NVDEC decoder for `codec`, or "".
pub fn cuvid_decoder(codec: &str) -> (r: String)
    ensures
        r@ == cuvid_for(codec@),
{
    if str_eq(codec, "h264") {
        String::from_str("h264_cuvid")
    } else if str_eq(codec, "hevc") {
        String::from_str("hevc_cuvid")
    } else if str_eq(codec, "vp9") {
        String::from_str("vp9_cuvid")
    } else if str_eq(codec, "av1") {
        String::from_str("av1_cuvid")
    } else {
        String::new()
    }
}

/// Decoder arguments for `input_path` and its stream `codec`, and the NVDEC
/// decoder used ("" for none).
pub fn build_dec_args(input_path: &str, codec: &str) -> (r: (Vec<String>, String))
    ensures
        r.0.deep_view() == dec_args_spec(input_path@, codec@),
        r.1@ == cuvid_for(codec@),
{
    let cuvid = cuvid_decoder(codec);
    let mut args: Vec<String> = Vec::new();
    push_word(&mut args, "-loglevel");
    push_word(&mut args, "error");
    push_word(&mut args, "-hwaccel");
    push_word(&mut args, "cuda");
    if !cuvid.as_str().is_empty() {
        push_word(&mut args, "-c:v");
        push_word(&mut args, cuvid.as_str());
    }
    push_word(&mut args, "-i");
    push_word(&mut args, input_path);
    push_word(&mut args, "-f");
    push_word(&mut args, "rawvideo");
    push_word(&mut args, "-pix_fmt");
    push_word(&mut args, "bgr24");
    push_word(&mut args, "pipe:1");
    assert(args.deep_view() =~= dec_args_spec(input_path@, codec@));
    (args, cuvid)
}

/// The frame size as FFmpeg's `WxH`.
pub fn size_string(w: usize, h: usize) -> (s: String)
    ensures
        s@ == size_arg(w as nat, h as nat),
{
    let mut s = String::new();
    push_decimal(&mut s, w as u64);
    push_char(&mut s, 'x');
    push_decimal(&mut s, h as u64);
    proof {
        reveal_strlit("x");
        assert(s@ =~= size_arg(w as nat, h as nat));
    }
    s
}

/// Encoder arguments writing `output_path` from `w` x `h` frames at `fps_str`.
pub fn build_enc_args(output_path: &str, w: usize, h: usize, fps_str: &str, use_nvenc: bool) -> (args: Vec<String>)
    ensures
        args.deep_view() == enc_args_spec(output_path@, w as nat, h as nat, fps_str@, use_nvenc),
{
    let mut args: Vec<String> = Vec::new();
    push_word(&mut args, "-loglevel");
    push_word(&mut args, "error");
    push_word(&mut args, "-y");
    push_word(&mut args, "-f");
    push_word(&mut args, "rawvideo");
    push_word(&mut args, "-pix_fmt");
    push_word(&mut args, "bgr24");
    push_word(&mut args, "-s");
    let size = size_string(w, h);
    push_word(&mut args, size.as_str());
    push_word(&mut args, "-r");
    push_word(&mut args, fps_str);
    push_word(&mut args, "-i");
    push_word(&mut args, "pipe:0");
    if use_nvenc {
        push_word(&mut args, "-c:v");
        push_word(&mut args, "h264_nvenc");
        push_word(&mut args, "-preset");
        push_word(&mut args, "p4");
        push_word(&mut args, "-cq");
        push_word(&mut args, "18");
    } else {
        push_word(&mut args, "-c:v");
        push_word(&mut args, "libx264");
        push_word(&mut args, "-crf");
        push_word(&mut args, "18");
        push_word(&mut args, "-preset");
        push_word(&mut args, "fast");
    }
    push_word(&mut args, "-pix_fmt");
    push_word(&mut args, "yuv420p");
    push_word(&mut args, "-an");
    push_word(&mut args, output_path);
    assert(args.deep_view() =~= enc_args_spec(output_path@, w as nat, h as nat, fps_str@, use_nvenc));
    args
}

} // verus!
