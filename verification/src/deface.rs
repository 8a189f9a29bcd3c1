//! One blur run over a video, frame by frame. The caller decodes frames,
//! runs the detectors and encodes the result; this module decides on which
//! frames to detect, keeps the tracked boxes, blurs and pixelates each frame,
//! reports progress and judges the outcome.
use vstd::prelude::*;
use vstd::string::StringExecFns;
use crate::image_ops::{
    block_count, frame_rows, gaussian_blur_roi, gaussian_blur_spec, max_int, min_int, pixel_block, pixelate_fits,
    pixelate_region, pixelate_roi, pixelate_spec,
};
use crate::text::{push_str, str_eq};
use crate::tracking::{
    faces_active, plates_active, process_detection_frame, track_frame, BBox, BlurMode, Track, TrackBuffer, FACE_GRID,
    FACE_TTL, PLATE_TTL,
};

verus! {

/// A detected face is blurred when its box is at least 50 pixels in each
/// direction and at most a fifth of the frame's width and height.
pub open spec fn face_is_blurred_spec(b: BBox, w: int, h: int) -> bool {
    &&& b.x <= b.x2
    &&& b.y <= b.y2
    &&& b.x2 - b.x >= 50
    &&& b.y2 - b.y >= 50
    &&& b.x2 - b.x <= w / 5
    &&& b.y2 - b.y <= h / 5
}

/// Whether a face box is blurred in a `w` x `h` frame.
pub fn face_is_blurred(b: &BBox, w: usize, h: usize) -> (r: bool)
    ensures
        r == face_is_blurred_spec(*b, w as int, h as int),
{
    b.x <= b.x2 && b.y <= b.y2 && b.x2 - b.x >= 50 && b.y2 - b.y >= 50 && b.x2 - b.x <= w / 5 && b.y2 - b.y
        <= h / 5
}

/// The frame after blurring the face tracks in order (those that pass
/// `face_is_blurred_spec`).
pub open spec fn blur_faces_spec(frame: Seq<u8>, fw: int, fh: int, tracks: Seq<Track>) -> Seq<u8>
    decreases tracks.len(),
{
    if tracks.len() == 0 {
        frame
    } else {
        let f = blur_faces_spec(frame, fw, fh, tracks.drop_last());
        let b = tracks.last().bbox;
        if face_is_blurred_spec(b, fw, fh) {
            gaussian_blur_spec(f, fw, b.x as int, b.y as int, b.x2 as int, b.y2 as int)
        } else {
            f
        }
    }
}

/// The frame after pixelating the plate tracks in order.
pub open spec fn pixelate_all_spec(frame: Seq<u8>, fw: int, tracks: Seq<Track>) -> Seq<u8>
    decreases tracks.len(),
{
    if tracks.len() == 0 {
        frame
    } else {
        let f = pixelate_all_spec(frame, fw, tracks.drop_last());
        let b = tracks.last().bbox;
        pixelate_spec(f, fw, b.x as int, b.y as int, b.x2 as int, b.y2 as int)
    }
}

/// The frame after blurring its faces and then pixelating its plates.
pub open spec fn blur_frame_spec(frame: Seq<u8>, fw: int, fh: int, faces: Seq<Track>, plates: Seq<Track>) -> Seq<u8> {
    pixelate_all_spec(blur_faces_spec(frame, fw, fh, faces), fw, plates)
}

/// Frame sizes whose index arithmetic fits in a `usize`.
pub open spec fn frame_fits(w: int, h: int) -> bool {
    &&& w > 0
    &&& w * h * 3 <= usize::MAX
    &&& w * w <= usize::MAX
    &&& h * h <= usize::MAX
}

/// Whether the index arithmetic of a `w` x `h` frame fits in a `usize`.
pub fn frame_supported(w: usize, h: usize) -> (r: bool)
    ensures
        r == frame_fits(w as int, h as int),
{
    if w == 0 {
        return false;
    }
    match w.checked_mul(h) {
        None => {
            proof {
                assert(w * h * 3 >= w * h) by (nonlinear_arith)
                    requires
                        w * h >= 0,
                ;
            }
            return false;
        },
        Some(wh) => {
            if wh.checked_mul(3).is_none() {
                return false;
            }
        },
    }
    w.checked_mul(w).is_some() && h.checked_mul(h).is_some()
}

proof fn lemma_rows(w: int, h: int)
    requires
        w > 0,
        h >= 0,
    ensures
        frame_rows(w * h * 3, w) == h,
{
    assert(w * h * 3 == h * (w * 3)) by (nonlinear_arith);
    vstd::arithmetic::div_mod::lemma_div_multiples_vanish(h, w * 3);
}

proof fn lemma_block_count_le(n: int, block: int)
    requires
        n >= 1,
        block >= 1,
    ensures
        1 <= block_count(n, block) <= n,
{
    assert((n + block - 1) / block <= n) by (nonlinear_arith)
        requires
            n >= 1,
            block >= 1,
    {
        assert(n + block - 1 <= n * block) by (nonlinear_arith)
            requires
                n >= 1,
                block >= 1,
        ;
        vstd::arithmetic::div_mod::lemma_div_is_ordered(n + block - 1, n * block, block);
        vstd::arithmetic::div_mod::lemma_div_multiples_vanish(n, block);
    }
}

/// In a frame whose size fits, every plate box can be pixelated.
proof fn lemma_pixelate_fits(w: int, h: int, x: int, y: int, x2: int, y2: int)
    requires
        frame_fits(w, h),
        h >= 0,
        0 <= x,
        0 <= y,
        0 <= x2,
        0 <= y2,
    ensures
        pixelate_fits(w * h * 3, w, x, y, x2, y2),
{
    lemma_rows(w, h);
    let (cx, cy, rw, rh) = pixelate_region(w * h * 3, w, x, y, x2, y2);
    if rw >= 2 && rh >= 2 {
        let block = pixel_block(rh);
        lemma_block_count_le(rw, block);
        lemma_block_count_le(rh, block);
        assert(block_count(rw, block) * rw <= w * w) by (nonlinear_arith)
            requires
                1 <= block_count(rw, block) <= rw,
                rw <= w,
        ;
        assert(block_count(rh, block) * rh <= h * h) by (nonlinear_arith)
            requires
                1 <= block_count(rh, block) <= rh,
                rh <= h,
        ;
    }
}

proof fn lemma_blur_faces_len(frame: Seq<u8>, fw: int, fh: int, tracks: Seq<Track>)
    ensures
        blur_faces_spec(frame, fw, fh, tracks).len() == frame.len(),
    decreases tracks.len(),
{
    if tracks.len() > 0 {
        lemma_blur_faces_len(frame, fw, fh, tracks.drop_last());
    }
}

proof fn lemma_pixelate_all_len(frame: Seq<u8>, fw: int, tracks: Seq<Track>)
    ensures
        pixelate_all_spec(frame, fw, tracks).len() == frame.len(),
    decreases tracks.len(),
{
    if tracks.len() > 0 {
        lemma_pixelate_all_len(frame, fw, tracks.drop_last());
    }
}

/// Blurs the tracked faces (those that `face_is_blurred` accepts) and then
/// pixelates the tracked plates of a `fw` x `fh` BGR frame, in track order.
pub fn blur_frame(frame: &mut [u8], fw: usize, fh: usize, faces: &TrackBuffer, plates: &TrackBuffer)
    requires
        frame_fits(fw as int, fh as int),
        old(frame)@.len() == fw * fh * 3,
    ensures
        final(frame)@ == blur_frame_spec(old(frame)@, fw as int, fh as int, faces@, plates@),
{
    let ghost f0 = frame@;
    let ft = faces.tracks();
    let mut i: usize = 0;
    while i < ft.len()
        invariant
            frame_fits(fw as int, fh as int),
            frame@.len() == fw * fh * 3,
            i <= ft@.len(),
            ft@ == faces@,
            frame@ == blur_faces_spec(f0, fw as int, fh as int, ft@.take(i as int)),
        decreases ft@.len() - i,
    {
        let b = ft[i].bbox;
        proof {
            assert(ft@.take(i as int + 1).drop_last() =~= ft@.take(i as int));
            assert(ft@.take(i as int + 1).last() == ft@[i as int]);
            assert(fw * 3 <= fw * fh * 3 || fh == 0) by (nonlinear_arith)
                requires
                    fw > 0,
                    fh >= 0,
            ;
        }
        if face_is_blurred(&b, fw, fh) {
            proof {
                assert(fw * 3 <= usize::MAX) by (nonlinear_arith)
                    requires
                        fw * fw <= usize::MAX,
                        fw > 0,
                        fw * fh * 3 <= usize::MAX,
                        b.y2 - b.y >= 50,
                        b.y2 - b.y <= fh / 5,
                ;
            }
            gaussian_blur_roi(frame, fw, b.x, b.y, b.x2, b.y2);
        }
        proof {
            lemma_blur_faces_len(f0, fw as int, fh as int, ft@.take(i as int + 1));
        }
        i = i + 1;
    }
    proof {
        assert(ft@.take(ft@.len() as int) =~= ft@);
    }
    let ghost f1 = frame@;
    let pt = plates.tracks();
    let mut j: usize = 0;
    while j < pt.len()
        invariant
            frame_fits(fw as int, fh as int),
            frame@.len() == fw * fh * 3,
            j <= pt@.len(),
            pt@ == plates@,
            frame@ == pixelate_all_spec(f1, fw as int, pt@.take(j as int)),
        decreases pt@.len() - j,
    {
        let b = pt[j].bbox;
        proof {
            assert(pt@.take(j as int + 1).drop_last() =~= pt@.take(j as int));
            assert(pt@.take(j as int + 1).last() == pt@[j as int]);
            lemma_pixelate_fits(fw as int, fh as int, b.x as int, b.y as int, b.x2 as int, b.y2 as int);
        }
        if fh > 0 {
            proof {
                assert(fw * 3 <= fw * fh * 3) by (nonlinear_arith)
                    requires
                        fw > 0,
                        fh >= 1,
                ;
            }
            pixelate_roi(frame, fw, b.x, b.y, b.x2, b.y2);
        } else {
            proof {
                assert(fw * fh * 3 == 0) by (nonlinear_arith)
                    requires
                        fh == 0,
                ;
                lemma_rows(fw as int, 0);
                assert(pixelate_spec(frame@, fw as int, b.x as int, b.y as int, b.x2 as int, b.y2 as int) == frame@);
            }
        }
        proof {
            lemma_pixelate_all_len(f1, fw as int, pt@.take(j as int + 1));
        }
        j = j + 1;
    }
    proof {
        assert(pt@.take(pt@.len() as int) =~= pt@);
    }
}

/// The frame index (counted from 1) is a detection frame: the first frame and
/// every `interval`-th frame after it.
pub open spec fn is_detection_frame(idx: int, interval: int) -> bool {
    (idx - 1) % interval == 0
}

/// Progress in percent after frame `idx` of `total` (0 when the total is unknown).
pub open spec fn progress_pct(idx: int, total: int) -> int {
    if total > 0 {
        min_int(idx * 100 / total, 100)
    } else {
        0
    }
}

/// The first frame is a detection frame, and detection frames come every
/// `interval` frames: the pattern repeats with period `interval`, and after a
/// detection frame the next `interval - 1` frames are not detection frames.
pub proof fn law_detection_cadence(idx: int, interval: int, j: int)
    requires
        interval > 0,
        idx >= 1,
        0 < j < interval,
    ensures
        is_detection_frame(1, interval),
        is_detection_frame(idx + interval, interval) == is_detection_frame(idx, interval),
        is_detection_frame(idx, interval) ==> !is_detection_frame(idx + j, interval),
{
    vstd::arithmetic::div_mod::lemma_mod_add_multiples_vanish(idx - 1, interval);
    assert((idx + interval) - 1 == interval + (idx - 1));
    assert(((idx + interval) - 1) % interval == (interval + (idx - 1)) % interval);
    if is_detection_frame(idx, interval) {
        vstd::arithmetic::div_mod::lemma_fundamental_div_mod(idx - 1, interval);
        let q = (idx - 1) / interval;
        assert(interval * q == q * interval) by (nonlinear_arith);
        assert((idx + j) - 1 == q * interval + j);
        vstd::arithmetic::div_mod::lemma_fundamental_div_mod_converse((idx + j) - 1, interval, q, j);
    }
}

/// Progress lies between 0 and 100 percent and never falls as frames are added.
pub proof fn law_progress_bounded_monotone(idx1: int, idx2: int, total: int)
    requires
        0 <= idx1 <= idx2,
    ensures
        0 <= progress_pct(idx1, total) <= 100,
        progress_pct(idx1, total) <= progress_pct(idx2, total),
{
    if total > 0 {
        assert(idx1 * 100 <= idx2 * 100);
        vstd::arithmetic::div_mod::lemma_div_is_ordered(idx1 * 100, idx2 * 100, total);
        vstd::arithmetic::div_mod::lemma_div_pos_is_pos(idx1 * 100, total);
    }
}

/// Blurring a frame works track by track: with no tracks the frame is kept;
/// one more face track that passes `face_is_blurred_spec` is blurred (with
/// the Gaussian blur of its box) on top of the frame with the earlier faces
/// blurred, and one that does not pass changes nothing; one more plate track
/// is pixelated on top of the frame with the faces and earlier plates done.
pub proof fn law_blur_frame_steps(
    frame: Seq<u8>,
    fw: int,
    fh: int,
    faces: Seq<Track>,
    plates: Seq<Track>,
    t: Track,
)
    ensures
        blur_frame_spec(frame, fw, fh, Seq::empty(), Seq::empty()) == frame,
        blur_frame_spec(frame, fw, fh, faces.push(t), Seq::empty()) == (if face_is_blurred_spec(t.bbox, fw, fh) {
            gaussian_blur_spec(
                blur_frame_spec(frame, fw, fh, faces, Seq::empty()),
                fw,
                t.bbox.x as int,
                t.bbox.y as int,
                t.bbox.x2 as int,
                t.bbox.y2 as int,
            )
        } else {
            blur_frame_spec(frame, fw, fh, faces, Seq::empty())
        }),
        blur_frame_spec(frame, fw, fh, faces, plates.push(t)) == pixelate_spec(
            blur_frame_spec(frame, fw, fh, faces, plates),
            fw,
            t.bbox.x as int,
            t.bbox.y as int,
            t.bbox.x2 as int,
            t.bbox.y2 as int,
        ),
{
    assert(faces.push(t).drop_last() =~= faces);
    assert(plates.push(t).drop_last() =~= plates);
}

/// A frame with a single face track that passes `face_is_blurred_spec` and
/// no plates comes out as the Gaussian blur of that face's box.
pub proof fn law_single_face_is_blurred(frame: Seq<u8>, fw: int, fh: int, t: Track)
    requires
        face_is_blurred_spec(t.bbox, fw, fh),
    ensures
        blur_frame_spec(frame, fw, fh, seq![t], Seq::empty()) == gaussian_blur_spec(
            frame,
            fw,
            t.bbox.x as int,
            t.bbox.y as int,
            t.bbox.x2 as int,
            t.bbox.y2 as int,
        ),
{
    law_blur_frame_steps(frame, fw, fh, Seq::empty(), Seq::empty(), t);
    assert(Seq::<Track>::empty().push(t) =~= seq![t]);
}

/// Why a blur run did not produce its output.
#[derive(Clone, Copy, Debug, PartialEq, Eq, Structural)]
pub enum DefaceError {
    /// The input file does not exist.
    InputMissing,
    /// The run was cancelled.
    Cancelled,
    /// The encoder left no output, or less than 1024 bytes.
    EncoderOutputMissing,
}

/// The state of one blur run.
pub struct DefaceRun {
    pub mode: BlurMode,
    pub det_interval: u64,
    pub plate_grid: usize,
    pub width: usize,
    pub height: usize,
    pub frame_idx: u64,
    pub total_faces: u64,
    pub total_plates: u64,
    pub last_milestone: u64,
    pub faces: TrackBuffer,
    pub plates: TrackBuffer,
}

impl DefaceRun {
    /// The settings are usable and the track buffers have unique keys.
    pub open spec fn wf(&self) -> bool {
        &&& self.det_interval > 0
        &&& self.plate_grid > 0
        &&& frame_fits(self.width as int, self.height as int)
        &&& self.faces.wf()
        &&& self.plates.wf()
    }

    /// A run over `width` x `height` frames that detects every `det_interval`
    /// frames and keys plates on a grid of `plate_grid` pixels.
    pub fn new(mode: BlurMode, det_interval: u64, plate_grid: usize, width: usize, height: usize) -> (r: Self)
        requires
            det_interval > 0,
            plate_grid > 0,
            frame_fits(width as int, height as int),
        ensures
            r.wf(),
            r.mode == mode,
            r.det_interval == det_interval,
            r.plate_grid == plate_grid,
            r.width == width,
            r.height == height,
            r.frame_idx == 0,
            r.total_faces == 0,
            r.total_plates == 0,
            r.last_milestone == 0,
            r.faces@ == Seq::<Track>::empty(),
            r.plates@ == Seq::<Track>::empty(),
    {
        DefaceRun {
            mode,
            det_interval,
            plate_grid,
            width,
            height,
            frame_idx: 0,
            total_faces: 0,
            total_plates: 0,
            last_milestone: 0,
            faces: TrackBuffer::new(),
            plates: TrackBuffer::new(),
        }
    }

    /// Counts a new frame and says whether the detectors run on it.
    pub fn begin_frame(&mut self) -> (detect: bool)
        requires
            old(self).wf(),
            old(self).frame_idx < u64::MAX,
        ensures
            final(self).wf(),
            final(self).frame_idx == old(self).frame_idx + 1,
            detect == is_detection_frame(final(self).frame_idx as int, old(self).det_interval as int),
            final(self).mode == old(self).mode,
            final(self).det_interval == old(self).det_interval,
            final(self).plate_grid == old(self).plate_grid,
            final(self).width == old(self).width,
            final(self).height == old(self).height,
            final(self).total_faces == old(self).total_faces,
            final(self).total_plates == old(self).total_plates,
            final(self).last_milestone == old(self).last_milestone,
            final(self).faces@ == old(self).faces@,
            final(self).plates@ == old(self).plates@,
    {
        self.frame_idx = self.frame_idx + 1;
        (self.frame_idx - 1) % self.det_interval == 0
    }

    /// Updates the tracks with the detections of the current frame (ignored
    /// unless `detect`) and adds the new detections to the totals.
    pub fn track(&mut self, detect: bool, faces: &[BBox], plates: &[BBox])
        requires
            old(self).wf(),
            old(self).total_faces + faces@.len() <= u64::MAX,
            old(self).total_plates + plates@.len() <= u64::MAX,
        ensures
            final(self).wf(),
            final(self).faces@ == track_frame(
                old(self).faces@,
                faces_active(old(self).mode),
                detect,
                faces@,
                FACE_GRID as int,
                FACE_TTL,
            ),
            final(self).plates@ == track_frame(
                old(self).plates@,
                plates_active(old(self).mode),
                detect,
                plates@,
                old(self).plate_grid as int,
                PLATE_TTL,
            ),
            final(self).total_faces == old(self).total_faces + (if faces_active(old(self).mode) && detect {
                faces@.len() as int
            } else {
                0
            }),
            final(self).total_plates == old(self).total_plates + (if plates_active(old(self).mode) && detect {
                plates@.len() as int
            } else {
                0
            }),
            final(self).mode == old(self).mode,
            final(self).det_interval == old(self).det_interval,
            final(self).plate_grid == old(self).plate_grid,
            final(self).width == old(self).width,
            final(self).height == old(self).height,
            final(self).frame_idx == old(self).frame_idx,
            final(self).last_milestone == old(self).last_milestone,
    {
        let (nf, np) = process_detection_frame(
            self.mode,
            detect,
            &mut self.faces,
            &mut self.plates,
            faces,
            plates,
            self.plate_grid,
        );
        self.total_faces = self.total_faces + nf;
        self.total_plates = self.total_plates + np;
    }

    /// Blurs and pixelates `frame` with the current tracks.
    pub fn blur(&self, frame: &mut [u8])
        requires
            self.wf(),
            old(frame)@.len() == self.width * self.height * 3,
        ensures
            final(frame)@ == blur_frame_spec(
                old(frame)@,
                self.width as int,
                self.height as int,
                self.faces@,
                self.plates@,
            ),
    {
        blur_frame(frame, self.width, self.height, &self.faces, &self.plates);
    }

    /// Progress after the current frame of `total_frames`: the percentage,
    /// and the new ten-percent milestone if one was reached since the last.
    pub fn progress(&mut self, total_frames: u64) -> (r: (u64, Option<u64>))
        requires
            old(self).frame_idx * 100 <= u64::MAX,
        ensures
            r.0 == progress_pct(old(self).frame_idx as int, total_frames as int),
            ({
                let m = (r.0 / 10) * 10;
                if m > 0 && m > old(self).last_milestone {
                    r.1 == Some(m as u64) && final(self).last_milestone == m
                } else {
                    r.1 == None::<u64> && final(self).last_milestone == old(self).last_milestone
                }
            }),
            final(self).mode == old(self).mode,
            final(self).det_interval == old(self).det_interval,
            final(self).plate_grid == old(self).plate_grid,
            final(self).width == old(self).width,
            final(self).height == old(self).height,
            final(self).frame_idx == old(self).frame_idx,
            final(self).total_faces == old(self).total_faces,
            final(self).total_plates == old(self).total_plates,
            final(self).faces@ == old(self).faces@,
            final(self).plates@ == old(self).plates@,
    {
        let pct = if total_frames > 0 {
            (self.frame_idx * 100 / total_frames).min(100)
        } else {
            0
        };
        let milestone = (pct / 10) * 10;
        if milestone > 0 && milestone > self.last_milestone {
            self.last_milestone = milestone;
            (pct, Some(milestone))
        } else {
            (pct, None)
        }
    }

    /// The job asked for faces, and none was detected in the whole run.
    pub fn faces_missing(&self) -> (r: bool)
        ensures
            r == (faces_active(self.mode) && self.total_faces == 0),
    {
        matches!(self.mode, BlurMode::Faces | BlurMode::Both) && self.total_faces == 0
    }

    /// How the run ended once the frame loop stopped: cancelled, or the
    /// encoder output (of `encoded_bytes` bytes, 0 when missing) too small.
    pub fn outcome(&self, cancelled: bool, encoded_bytes: u64) -> (r: Result<(), DefaceError>)
        ensures
            r == (if cancelled {
                Err(DefaceError::Cancelled)
            } else if encoded_bytes < 1024 {
                Err(DefaceError::EncoderOutputMissing)
            } else {
                Ok(())
            }),
    {
        if cancelled {
            Err(DefaceError::Cancelled)
        } else if encoded_bytes < 1024 {
            Err(DefaceError::EncoderOutputMissing)
        } else {
            Ok(())
        }
    }
}

/// Which file becomes the output after muxing the audio back in: the muxed
/// file (`Some(true)`) when FFmpeg succeeded and wrote more than 1024 bytes,
/// else the video without audio (`Some(false)`); `None` when the chosen file
/// holds less than 1024 bytes.
pub fn choose_mux_output(mux_ok: bool, muxed_bytes: u64, video_bytes: u64) -> (r: Option<bool>)
    ensures
        r == (if mux_ok && muxed_bytes > 1024 {
            Some(true)
        } else if video_bytes >= 1024 {
            Some(false)
        } else {
            None
        }),
{
    if mux_ok && muxed_bytes > 1024 {
        Some(true)
    } else if video_bytes >= 1024 {
        Some(false)
    } else {
        None
    }
}

/// Input size of the CenterFace detector as (height, width) for the job's
/// `detection_resolution`: 1080p, the frame itself ("native"), else 720p.
pub open spec fn detection_input_size_spec(res: Seq<char>, w: int, h: int) -> (int, int) {
    if res == "1080p"@ {
        (1080, 1920)
    } else if res == "native"@ {
        (h, w)
    } else {
        (720, 1280)
    }
}

/// The detector input size, (height, width), for `res` and `w` x `h` frames.
pub fn detection_input_size(res: &str, w: usize, h: usize) -> (r: (usize, usize))
    ensures
        (r.0 as int, r.1 as int) == detection_input_size_spec(res@, w as int, h as int),
{
    if str_eq(res, "1080p") {
        (1080, 1920)
    } else if str_eq(res, "native") {
        (h, w)
    } else {
        (720, 1280)
    }
}

/// The rotation that is applied: multiples of 90 degrees only, else none.
pub open spec fn effective_rotation(rotation: int) -> int {
    if rotation % 90 != 0 {
        0
    } else {
        rotation
    }
}

/// Frame size after FFmpeg's autorotation of a `width` x `height` stream with
/// `rotation`: width and height swap for 90 and 270 degrees. Also returns
/// the effective rotation.
pub fn oriented_size(width: usize, height: usize, rotation: i32) -> (r: (usize, usize, i32))
    ensures
        r.2 == effective_rotation(rotation as int),
        (r.0, r.1) == (if r.2 == 90 || r.2 == 270 {
            (height, width)
        } else {
            (width, height)
        }),
{
    let rot = if rotation % 90 != 0 {
        0
    } else {
        rotation
    };
    if rot == 90 || rot == 270 {
        (height, width, rot)
    } else {
        (width, height, rot)
    }
}

/// The rotation a display matrix of `angle` degrees asks for: the angle
/// turned the other way, taken into 0..360.
pub open spec fn display_rotation_spec(angle: int) -> int {
    (-angle) % 360
}

/// The rotation in degrees, in 0..360, that a stream's display matrix with
/// rotation `r` (taken as an `i32`) asks for.
pub fn display_matrix_rotation(r: i64) -> (rot: i32)
    requires
        (r as i32) != i32::MIN,
    ensures
        rot == display_rotation_spec((r as i32) as int),
        0 <= rot < 360,
{
    let t: i32 = r as i32;
    let n: i64 = -(t as i64);
    if n >= 0 {
        (n % 360) as i32
    } else {
        let m: i64 = (-n) % 360;
        if m == 0 {
            proof {
                assert((-n) % 360 == 0 ==> n % 360 == 0) by (nonlinear_arith);
            }
            0
        } else {
            proof {
                assert(0 < (-n) % 360 ==> n % 360 == 360 - (-n) % 360) by (nonlinear_arith);
            }
            (360 - m) as i32
        }
    }
}

/// Tile counts are kept between 1 and 4.
pub fn clamp_tiles(n: usize) -> (r: usize)
    ensures
        r == (if n < 1 {
            1
        } else if n > 4 {
            4
        } else {
            n
        }),
{
    if n < 1 {
        1
    } else if n > 4 {
        4
    } else {
        n
    }
}

/// The files of a run next to `output_path`: the encoder's temporary output,
/// the muxed temporary output and the detection log.
pub fn work_paths(output_path: &str) -> (r: (String, String, String))
    ensures
        r.0@ == output_path@ + ".enc.tmp.mp4"@,
        r.1@ == output_path@ + ".final.tmp.mp4"@,
        r.2@ == output_path@ + ".detections.csv"@,
{
    let mut enc = String::from_str(output_path);
    push_str(&mut enc, ".enc.tmp.mp4");
    let mut fin = String::from_str(output_path);
    push_str(&mut fin, ".final.tmp.mp4");
    let mut csv = String::from_str(output_path);
    push_str(&mut csv, ".detections.csv");
    (enc, fin, csv)
}

impl DefaceError {
    /// The error text the service reports: "cancelled" for a
    /// cancellation, and a description naming the file otherwise (the input
    /// for `InputMissing`, the encoder output for `EncoderOutputMissing`).
    pub fn message(&self, path: &str) -> (m: String)
        ensures
            m@ == (match *self {
                DefaceError::InputMissing => "Datei nicht gefunden: "@ + path@
                    + "\nPrüfe ob das Volume korrekt gemountet ist."@,
                DefaceError::Cancelled => "cancelled"@,
                DefaceError::EncoderOutputMissing => "Encoder fehlgeschlagen: Ausgabedatei fehlt oder leer ("@
                    + path@ + ")"@,
            }),
    {
        match self {
            DefaceError::InputMissing => {
                let mut m = String::from_str("Datei nicht gefunden: ");
                push_str(&mut m, path);
                push_str(&mut m, "\nPrüfe ob das Volume korrekt gemountet ist.");
                m
            },
            DefaceError::Cancelled => String::from_str("cancelled"),
            DefaceError::EncoderOutputMissing => {
                let mut m = String::from_str("Encoder fehlgeschlagen: Ausgabedatei fehlt oder leer (");
                push_str(&mut m, path);
                push_str(&mut m, ")");
                m
            },
        }
    }
}

} // verus!
