//! The `/render` job: human-readable sizes, the FFmpeg command line around a
//! filter graph, and how a finished or failed render is reported.
use vstd::prelude::*;
use vstd::string::StringExecFns;
use crate::text::{
    chars_of, decimal, digit_char, head, head_spec, push_char, push_chars, push_decimal, push_str, seq_eq, str_eq, string_of,
    tail, tail_spec,
};
use crate::pipeline::push_word;

verus! {

/// `2^e`.
pub open spec fn pow2(e: nat) -> nat
    decreases e,
{
    if e == 0 {
        1
    } else {
        2 * pow2((e - 1) as nat)
    }
}

/// `num / den` rounded to the nearest integer, ties to the even one.
pub open spec fn div_round_even(num: nat, den: nat) -> nat {
    let q = num / den;
    let r = num % den;
    if 2 * r > den || (2 * r == den && q % 2 == 1) {
        q + 1
    } else {
        q
    }
}

/// How many low bits of `n` do not fit into the 53-bit significand of an `f64`.
pub open spec fn dropped_bits(n: nat) -> nat
    decreases n,
{
    if n < 0x20_0000_0000_0000 {
        0
    } else {
        1 + dropped_bits(n / 2)
    }
}

/// The integer `n` converted to the nearest `f64` (ties to even), as an integer.
pub open spec fn as_f64(n: nat) -> nat {
    let s = pow2(dropped_bits(n));
    div_round_even(n, s) * s
}

/// `n` as two decimal digits.
pub open spec fn two_digits(n: nat) -> Seq<char> {
    seq![digit_char(n / 10), digit_char(n % 10)]
}

pub open spec fn gib() -> nat {
    1_073_741_824
}

pub open spec fn mib() -> nat {
    1_048_576
}

/// A byte count as text: above 1 GiB in GB with two decimals, above 1 MiB in
/// MB with one decimal, else in whole KB; the value is the byte count as an
/// `f64` divided by the unit, rounded half to even.
pub open spec fn format_bytes_spec(b: nat) -> Seq<char> {
    if b > gib() {
        let d = div_round_even(as_f64(b) * 100, gib());
        decimal(d / 100) + seq!['.'] + two_digits(d % 100) + seq![' ', 'G', 'B']
    } else if b > mib() {
        let d = div_round_even(b * 10, mib());
        decimal(d / 10) + seq!['.', digit_char(d % 10)] + seq![' ', 'M', 'B']
    } else {
        decimal(div_round_even(b, 1024)) + seq![' ', 'K', 'B']
    }
}

proof fn lemma_pow2_pos(e: nat)
    ensures
        pow2(e) >= 1,
    decreases e,
{
    if e > 0 {
        lemma_pow2_pos((e - 1) as nat);
    }
}

fn round_even(num: u128, den: u128) -> (r: u128)
    requires
        den > 0,
        num < 0x1_0000_0000_0000_0000_0000_0000_0000,
    ensures
        r == div_round_even(num as nat, den as nat),
{
    let q = num / den;
    let rem = num % den;
    if rem > den - rem || (rem == den - rem && q % 2 == 1) {
        q + 1
    } else {
        q
    }
}

/// The `f64` nearest to `b`, as an integer.
fn nearest_f64(b: u64) -> (f: u128)
    ensures
        f == as_f64(b as nat),
        f <= 0x2_0000_0000_0000_0000,
{
    let limit: u128 = 0x20_0000_0000_0000;
    let mut t: u128 = b as u128;
    let mut scale: u128 = 1;
    let ghost mut e: nat = 0;
    while t >= limit
        invariant
            limit == 0x20_0000_0000_0000,
            scale == pow2(e),
            scale >= 1,
            t == (b as nat) / (scale as nat),
            scale <= 0x1_0000_0000_0000_0000,
            dropped_bits(b as nat) == e + dropped_bits(t as nat),
        decreases t,
    {
        proof {
            vstd::arithmetic::div_mod::lemma_div_denominator(b as int, scale as int, 2);
            vstd::arithmetic::div_mod::lemma_fundamental_div_mod(b as int, scale as int);
            assert(scale * t <= b) by (nonlinear_arith)
                requires
                    b as int == scale * (b as int / scale as int) + (b as int % scale as int),
                    t == b as int / scale as int,
                    b as int % scale as int >= 0,
            ;
            assert(scale * 2 <= scale * t) by (nonlinear_arith)
                requires
                    t >= 2,
                    scale >= 1,
            ;
        }
        t = t / 2;
        scale = scale * 2;
        proof {
            e = e + 1;
            assert(pow2(e) == 2 * pow2((e - 1) as nat));
        }
    }
    proof {
        lemma_pow2_pos(e);
    }
    let q = round_even(b as u128, scale);
    proof {
        assert(dropped_bits(t as nat) == 0);
        vstd::arithmetic::div_mod::lemma_fundamental_div_mod(b as int, scale as int);
        assert(t * scale <= b) by (nonlinear_arith)
            requires
                b as int == scale * (b as int / scale as int) + (b as int % scale as int),
                t == b as int / scale as int,
                b as int % scale as int >= 0,
        ;
        assert(q <= t + 1);
        assert(q * scale <= t * scale + scale) by (nonlinear_arith)
            requires
                q <= t + 1,
                scale >= 1,
        ;
    }
    q * scale
}

/// A byte count as text, e.g. "512 KB", "5.0 MB", "3.00 GB".
pub fn format_bytes(b: u64) -> (s: String)
    ensures
        s@ == format_bytes_spec(b as nat),
{
    let mut s = String::new();
    if b > 1_073_741_824 {
        let f = nearest_f64(b);
        let d = round_even(f * 100, 1_073_741_824);
        proof {
            assert(d <= f * 100 / 1_073_741_824 + 1);
            assert(f * 100 / 1_073_741_824 <= 0x2_0000_0000_0000_0000 * 100 / 1_073_741_824) by {
                vstd::arithmetic::div_mod::lemma_div_is_ordered(f * 100, 0x2_0000_0000_0000_0000int * 100, 1_073_741_824int);
            }
        }
        let whole = (d / 100) as u64;
        let frac = (d % 100) as u64;
        push_decimal(&mut s, whole);
        push_char(&mut s, '.');
        push_char(&mut s, crate::text::digit_of(frac / 10));
        push_char(&mut s, crate::text::digit_of(frac % 10));
        push_char(&mut s, ' ');
        push_char(&mut s, 'G');
        push_char(&mut s, 'B');
        proof {
            assert(s@ =~= format_bytes_spec(b as nat));
        }
    } else if b > 1_048_576 {
        let d = round_even((b as u128) * 10, 1_048_576);
        proof {
            assert(d <= (b as u128) * 10 / 1_048_576 + 1);
            assert((b as u128) * 10 / 1_048_576 <= 1_073_741_824 * 10 / 1_048_576) by {
                vstd::arithmetic::div_mod::lemma_div_is_ordered((b as u128) * 10, 1_073_741_824int * 10, 1_048_576int);
            }
        }
        let whole = (d / 10) as u64;
        let frac = (d % 10) as u64;
        push_decimal(&mut s, whole);
        push_char(&mut s, '.');
        push_char(&mut s, crate::text::digit_of(frac));
        push_char(&mut s, ' ');
        push_char(&mut s, 'M');
        push_char(&mut s, 'B');
        proof {
            assert(s@ =~= format_bytes_spec(b as nat));
        }
    } else {
        let d = round_even(b as u128, 1024);
        proof {
            assert(d <= (b as u128) / 1024 + 1);
        }
        push_decimal(&mut s, d as u64);
        push_char(&mut s, ' ');
        push_char(&mut s, 'K');
        push_char(&mut s, 'B');
        proof {
            assert(s@ =~= format_bytes_spec(b as nat));
        }
    }
    s
}

/// The texts held by `v`.
pub open spec fn words(v: Seq<String>) -> Seq<Seq<char>> {
    v.map_values(|s: String| s@)
}

/// `-i <path>` for each input, in order.
pub open spec fn input_args(inputs: Seq<Seq<char>>) -> Seq<Seq<char>>
    decreases inputs.len(),
{
    if inputs.len() == 0 {
        Seq::empty()
    } else {
        input_args(inputs.drop_last()) + seq!["-i"@, inputs.last()]
    }
}

/// The FFmpeg arguments of a render: the clips as inputs, then the music
/// (looped endlessly if asked), the filter graph with its video and audio
/// outputs, H.264/AAC settings and the output file.
pub open spec fn render_args_spec(
    inputs: Seq<Seq<char>>,
    music: Option<Seq<char>>,
    loop_music: bool,
    overwrite: bool,
    graph: Seq<char>,
    audio_map: Seq<char>,
    output: Seq<char>,
) -> Seq<Seq<char>> {
    let head = seq!["-hide_banner"@, "-nostats"@, "-loglevel"@, "error"@, if overwrite { "-y"@ } else { "-n"@ }];
    let mus = match music {
        Some(m) => (if loop_music {
            seq!["-stream_loop"@, "-1"@]
        } else {
            Seq::empty()
        }) + seq!["-i"@, m],
        None => Seq::empty(),
    };
    let tail = seq![
        "-filter_complex"@,
        graph,
        "-map"@,
        "[vout]"@,
        "-map"@,
        audio_map,
        "-c:v"@,
        "libx264"@,
        "-crf"@,
        "22"@,
        "-preset"@,
        "fast"@,
        "-c:a"@,
        "aac"@,
        "-b:a"@,
        "192k"@,
        "-shortest"@,
        "-movflags"@,
        "+faststart"@,
        output,
    ];
    head + input_args(inputs) + mus + tail
}

/// The FFmpeg arguments of a render.
#[verifier::rlimit(60)]
pub fn render_args(
    inputs: &[String],
    music: Option<&str>,
    loop_music: bool,
    overwrite: bool,
    graph: &str,
    audio_map: &str,
    output: &str,
) -> (args: Vec<String>)
    ensures
        words(args@) == render_args_spec(
            words(inputs@),
            match music {
                Some(m) => Some(m@),
                None => None,
            },
            loop_music,
            overwrite,
            graph@,
            audio_map@,
            output@,
        ),
{
    let mut args: Vec<String> = Vec::new();
    push_word(&mut args, "-hide_banner");
    push_word(&mut args, "-nostats");
    push_word(&mut args, "-loglevel");
    push_word(&mut args, "error");
    if overwrite {
        push_word(&mut args, "-y");
    } else {
        push_word(&mut args, "-n");
    }
    let ghost a0 = args.deep_view();
    let mut i: usize = 0;
    while i < inputs.len()
        invariant
            i <= inputs@.len(),
            args.deep_view() == a0 + input_args(words(inputs@).take(i as int)),
        decreases inputs@.len() - i,
    {
        let ghost before = args.deep_view();
        push_word(&mut args, "-i");
        push_word(&mut args, inputs[i].as_str());
        proof {
            assert(words(inputs@).take(i as int + 1).drop_last() =~= words(inputs@).take(i as int));
            assert(words(inputs@).take(i as int + 1).last() == inputs@[i as int]@);
            assert(args.deep_view() =~= before + seq!["-i"@, inputs@[i as int]@]);
        }
        i = i + 1;
    }
    proof {
        assert(words(inputs@).take(inputs@.len() as int) =~= words(inputs@));
    }
    if let Some(m) = music {
        if loop_music {
            push_word(&mut args, "-stream_loop");
            push_word(&mut args, "-1");
        }
        push_word(&mut args, "-i");
        push_word(&mut args, m);
    }
    push_word(&mut args, "-filter_complex");
    push_word(&mut args, graph);
    push_word(&mut args, "-map");
    push_word(&mut args, "[vout]");
    push_word(&mut args, "-map");
    push_word(&mut args, audio_map);
    push_word(&mut args, "-c:v");
    push_word(&mut args, "libx264");
    push_word(&mut args, "-crf");
    push_word(&mut args, "22");
    push_word(&mut args, "-preset");
    push_word(&mut args, "fast");
    push_word(&mut args, "-c:a");
    push_word(&mut args, "aac");
    push_word(&mut args, "-b:a");
    push_word(&mut args, "192k");
    push_word(&mut args, "-shortest");
    push_word(&mut args, "-movflags");
    push_word(&mut args, "+faststart");
    push_word(&mut args, output);
    proof {
        assert(args.deep_view() =~= words(args@));
    }
    assert(args.deep_view() =~= render_args_spec(
        words(inputs@),
        match music {
            Some(m) => Some(m@),
            None => None,
        },
        loop_music,
        overwrite,
        graph@,
        audio_map@,
        output@,
    ));
    args
}

/// A render uses music when the audio mode asks for it and a music file is given.
pub fn uses_music(mode: &str, music_path: &str) -> (r: bool)
    ensures
        r == ((mode@ == "replace_with_music"@ || mode@ == "mix_music"@) && music_path@.len() > 0),
{
    (str_eq(mode, "replace_with_music") || str_eq(mode, "mix_music")) && !music_path.is_empty()
}

/// The error of a failed FFmpeg run from its trimmed standard error: the
/// last 800 characters, or a fixed text when it printed nothing.
pub fn ffmpeg_error(trimmed_stderr: &str) -> (e: String)
    ensures
        e@ == (if trimmed_stderr@.len() == 0 {
            "FFmpeg fehlgeschlagen"@
        } else {
            tail_spec(trimmed_stderr@, 800)
        }),
{
    if trimmed_stderr.is_empty() {
        String::from_str("FFmpeg fehlgeschlagen")
    } else {
        tail(trimmed_stderr, 800)
    }
}

/// The checks before a render starts: there must be clips, and an existing
/// output is only replaced when `overwrite` is set.
pub fn render_precheck(n_clips: usize, overwrite: bool, output_exists: bool, out_name: &str) -> (r: Result<(), String>)
    ensures
        match r {
            Ok(()) => n_clips > 0 && (overwrite || !output_exists),
            Err(m) => if n_clips == 0 {
                m@ == "Keine Clips im Render-Auftrag."@
            } else {
                !overwrite && output_exists && m@ == "Ausgabedatei existiert bereits: "@ + out_name@
            },
        },
{
    if n_clips == 0 {
        return Err(String::from_str("Keine Clips im Render-Auftrag."));
    }
    if !overwrite && output_exists {
        let mut m = String::from_str("Ausgabedatei existiert bereits: ");
        push_str(&mut m, out_name);
        return Err(m);
    }
    Ok(())
}

/// What a finished render reports: for a failure the error of the answer
/// (None on success) and the error the status shows. A cancellation answers
/// "cancelled" and shows "Render abgebrochen"; another failure answers its
/// last 800 characters and shows its first 200.
pub fn render_outcome(error: Option<&str>) -> (r: (Option<String>, String))
    ensures
        match error {
            None => r.0 is None && r.1@.len() == 0,
            Some(e) => if e@ == "cancelled"@ {
                (r.0 matches Some(a) && a@ == "cancelled"@) && r.1@ == "Render abgebrochen"@
            } else {
                (r.0 matches Some(a) && a@ == tail_spec(e@, 800)) && r.1@ == head_spec(e@, 200)
            },
        },
{
    match error {
        None => (None, String::new()),
        Some(e) => {
            if str_eq(e, "cancelled") {
                (Some(String::from_str("cancelled")), String::from_str("Render abgebrochen"))
            } else {
                (Some(tail(e, 800)), head(e, 200))
            }
        },
    }
}

/// Keeps the first occurrence of each source, in order.
pub open spec fn first_occurrences(s: Seq<Seq<char>>) -> Seq<Seq<char>>
    decreases s.len(),
{
    if s.len() == 0 {
        s
    } else {
        let rest = first_occurrences(s.drop_last());
        if rest.contains(s.last()) {
            rest
        } else {
            rest.push(s.last())
        }
    }
}

/// The sources to move, each once, in order.
pub fn unique_sources(sources: &[String]) -> (r: Vec<String>)
    ensures
        words(r@) == first_occurrences(words(sources@)),
{
    let mut r: Vec<String> = Vec::new();
    let mut i: usize = 0;
    while i < sources.len()
        invariant
            i <= sources@.len(),
            words(r@) == first_occurrences(words(sources@).take(i as int)),
        decreases sources@.len() - i,
    {
        proof {
            assert(words(sources@).take(i as int + 1).drop_last() =~= words(sources@).take(i as int));
            assert(words(sources@).take(i as int + 1).last() == sources@[i as int]@);
        }
        let mut seen = false;
        let mut j: usize = 0;
        while j < r.len()
            invariant
                j <= r@.len(),
                seen == exists|k: int| 0 <= k < j && words(r@)[k] == sources@[i as int]@,
                i < sources@.len(),
            decreases r@.len() - j,
        {
            let same = str_eq(r[j].as_str(), sources[i].as_str());
            proof {
                assert(words(r@)[j as int] == r@[j as int]@);
                if same {
                    assert(words(r@)[j as int] == sources@[i as int]@);
                }
            }
            if same {
                seen = true;
            }
            j = j + 1;
        }
        proof {
            assert(seen == words(r@).contains(sources@[i as int]@));
        }
        if !seen {
            let ghost w0 = words(r@);
            r.push(sources[i].clone());
            proof {
                assert(words(r@) =~= w0.push(sources@[i as int]@));
            }
        }
        i = i + 1;
    }
    proof {
        assert(words(sources@).take(sources@.len() as int) =~= words(sources@));
    }
    r
}

/// The stem and extension of a file name as `Path::file_stem` and
/// `Path::extension` split it: at the last '.', unless that is the first
/// character or the name is "..".
pub open spec fn split_ext(base: Seq<char>) -> (Seq<char>, Option<Seq<char>>) {
    if base == ".."@ {
        (base, None)
    } else if exists|i: int| 0 <= i < base.len() && base[i] == '.' {
        let i = choose|i: int|
            0 <= i < base.len() && base[i] == '.' && forall|j: int| i < j < base.len() ==> base[j] != '.';
        if i == 0 {
            (base, None)
        } else {
            (base.subrange(0, i), Some(base.subrange(i + 1, base.len() as int)))
        }
    } else {
        (base, None)
    }
}

/// The name a moved source gets when the target already exists:
/// `<stem>_<stamp>.<extension>`.
pub open spec fn stamped_name_spec(base: Seq<char>, stamp: Seq<char>) -> Seq<char> {
    let (stem, ext) = split_ext(base);
    stem + "_"@ + stamp + match ext {
        Some(e) => "."@ + e,
        None => Seq::empty(),
    }
}

/// The file name `<stem>_<stamp>.<extension>` for `base`.
pub fn stamped_name(base: &str, stamp: &str) -> (r: String)
    ensures
        r@ == stamped_name_spec(base@, stamp@),
{
    let b = chars_of(base);
    let mut last: Option<usize> = None;
    let mut i: usize = 0;
    while i < b.len()
        invariant
            i <= b@.len(),
            match last {
                Some(l) => l < i && b@[l as int] == '.' && forall|j: int| l < j < i ==> b@[j] != '.',
                None => forall|j: int| 0 <= j < i ==> b@[j] != '.',
            },
        decreases b@.len() - i,
    {
        if b[i] == '.' {
            last = Some(i);
        }
        i = i + 1;
    }
    let is_parent = str_eq(base, "..");
    let mut r = String::new();
    proof {
        reveal_strlit("..");
    }
    match last {
        Some(l) if l > 0 && !is_parent => {
            proof {
                let c = choose|c: int|
                    0 <= c < b@.len() && b@[c] == '.' && forall|j: int| c < j < b@.len() ==> b@[j] != '.';
                if c < l {
                    assert(b@[l as int] == '.');
                } else if c > l {
                    assert(b@[c] != '.');
                }
            }
            let mut stem: Vec<char> = Vec::new();
            let mut k: usize = 0;
            while k < l
                invariant
                    l < b@.len(),
                    k <= l,
                    stem@ == b@.subrange(0, k as int),
                decreases l - k,
            {
                stem.push(b[k]);
                proof {
                    assert(b@.subrange(0, k + 1) =~= b@.subrange(0, k as int).push(b@[k as int]));
                }
                k = k + 1;
            }
            let mut ext: Vec<char> = Vec::new();
            let mut k2: usize = l + 1;
            while k2 < b.len()
                invariant
                    l < b@.len(),
                    l + 1 <= k2 <= b@.len(),
                    ext@ == b@.subrange(l + 1, k2 as int),
                decreases b@.len() - k2,
            {
                ext.push(b[k2]);
                proof {
                    assert(b@.subrange(l + 1, k2 + 1) =~= b@.subrange(l + 1, k2 as int).push(b@[k2 as int]));
                }
                k2 = k2 + 1;
            }
            push_chars(&mut r, stem.as_slice());
            push_str(&mut r, "_");
            push_str(&mut r, stamp);
            push_str(&mut r, ".");
            push_chars(&mut r, ext.as_slice());
        },
        _ => {
            proof {
                if base@ != ".."@ && exists|c: int| 0 <= c < b@.len() && b@[c] == '.' {
                    let c = choose|c: int|
                        0 <= c < b@.len() && b@[c] == '.' && forall|j: int| c < j < b@.len() ==> b@[j] != '.';
                    assert(last is Some);
                    let l = last->0;
                    if c < l {
                        assert(b@[l as int] == '.');
                    } else if c > l {
                        assert(b@[c] != '.');
                    }
                }
            }
            push_str(&mut r, base);
            push_str(&mut r, "_");
            push_str(&mut r, stamp);
        },
    }
    assert(r@ =~= stamped_name_spec(base@, stamp@));
    r
}

} // verus!
