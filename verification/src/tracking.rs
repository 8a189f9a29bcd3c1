//! Detection tracking: boxes found on a detection frame stay blurred for a
//! number of following frames (their time to live), keyed by a coarse grid
//! cell so that the same object found again replaces its earlier box.
use vstd::prelude::*;

verus! {

/// An axis-aligned box in frame pixels, `[x, x2) x [y, y2)`.
#[derive(Clone, Copy, Debug, PartialEq, Eq, Structural)]
pub struct BBox {
    pub x: usize,
    pub y: usize,
    pub x2: usize,
    pub y2: usize,
}

/// A tracked box: its grid key, the box and the frames it has left.
#[derive(Clone, Copy, Debug)]
pub struct Track {
    pub key: (usize, usize, usize, usize),
    pub bbox: BBox,
    pub ttl: u32,
}

/// What a job blurs: faces, number plates, or both.
#[derive(Clone, Copy, Debug, PartialEq, Eq, Structural)]
pub enum BlurMode {
    Faces,
    Plates,
    Both,
}

/// Grid cell size for face keys.
pub const FACE_GRID: usize = 30;

/// Frames a detected face stays blurred.
pub const FACE_TTL: u32 = 60;

/// Frames a detected plate stays pixelated.
pub const PLATE_TTL: u32 = 200;

pub open spec fn faces_active(mode: BlurMode) -> bool {
    mode == BlurMode::Faces || mode == BlurMode::Both
}

pub open spec fn plates_active(mode: BlurMode) -> bool {
    mode == BlurMode::Plates || mode == BlurMode::Both
}

/// The grid key of a box: each corner coordinate divided by `grid`.
pub open spec fn grid_key_spec(b: BBox, grid: int) -> (usize, usize, usize, usize) {
    (
        (b.x as int / grid) as usize,
        (b.y as int / grid) as usize,
        (b.x2 as int / grid) as usize,
        (b.y2 as int / grid) as usize,
    )
}

/// No two tracks share a key.
pub open spec fn unique_keys(s: Seq<Track>) -> bool {
    forall|i: int, j: int| 0 <= i < j < s.len() ==> #[trigger] s[i].key != #[trigger] s[j].key
}

/// Some track of `s` has key `k`.
pub open spec fn has_key(s: Seq<Track>, k: (usize, usize, usize, usize)) -> bool {
    exists|i: int| 0 <= i < s.len() && #[trigger] s[i].key == k
}

/// `t` with one frame less to live (never below 0).
pub open spec fn aged(t: Track) -> Track {
    Track { ttl: if t.ttl > 0 { (t.ttl - 1) as u32 } else { 0 }, ..t }
}

/// The tracks after one frame: every time to live drops by one and the
/// tracks that reach 0 are dropped; the order is kept.
pub open spec fn decay_seq(s: Seq<Track>) -> Seq<Track>
    decreases s.len(),
{
    if s.len() == 0 {
        s
    } else {
        let rest = decay_seq(s.drop_last());
        if aged(s.last()).ttl > 0 {
            rest.push(aged(s.last()))
        } else {
            rest
        }
    }
}

/// The tracks after storing `t`: a track with the same key is replaced in
/// place, otherwise `t` is appended.
pub open spec fn insert_seq(s: Seq<Track>, t: Track) -> Seq<Track> {
    if has_key(s, t.key) {
        s.update(key_pos(s, t.key), t)
    } else {
        s.push(t)
    }
}

/// Position of a track with key `k` in `s` (meaningful where `has_key(s, k)`).
pub open spec fn key_pos(s: Seq<Track>, k: (usize, usize, usize, usize)) -> int {
    choose|i: int| 0 <= i < s.len() && #[trigger] s[i].key == k
}

/// With unique keys, `key_pos` is the one position that holds the key.
pub proof fn lemma_key_pos(s: Seq<Track>, k: (usize, usize, usize, usize))
    requires
        unique_keys(s),
        has_key(s, k),
    ensures
        0 <= key_pos(s, k) < s.len(),
        s[key_pos(s, k)].key == k,
        forall|i: int| 0 <= i < s.len() && #[trigger] s[i].key == k ==> i == key_pos(s, k),
{
    let p = key_pos(s, k);
    assert forall|i: int| 0 <= i < s.len() && #[trigger] s[i].key == k implies i == p by {
        if i < p {
            assert(s[i].key != s[p].key);
        } else if i > p {
            assert(s[p].key != s[i].key);
        }
    }
}

/// The track that a detected box becomes.
pub open spec fn track_of(b: BBox, grid: int, ttl: u32) -> Track {
    Track { key: grid_key_spec(b, grid), bbox: b, ttl }
}

/// The tracks after storing every box of `boxes`, in order.
pub open spec fn insert_all(s: Seq<Track>, boxes: Seq<BBox>, grid: int, ttl: u32) -> Seq<Track>
    decreases boxes.len(),
{
    if boxes.len() == 0 {
        s
    } else {
        insert_seq(insert_all(s, boxes.drop_last(), grid, ttl), track_of(boxes.last(), grid, ttl))
    }
}

/// The tracks after one frame of a kind that is `active` in the job: they age,
/// and on a detection frame the new boxes are stored.
pub open spec fn track_frame(s: Seq<Track>, active: bool, detect: bool, boxes: Seq<BBox>, grid: int, ttl: u32) -> Seq<Track> {
    if !active {
        s
    } else if detect {
        insert_all(decay_seq(s), boxes, grid, ttl)
    } else {
        decay_seq(s)
    }
}

/// Every track of `decay_seq(s)` is an aged track of `s` with the same key.
pub proof fn lemma_decay_from(s: Seq<Track>)
    ensures
        decay_seq(s).len() <= s.len(),
        forall|j: int|
            0 <= j < decay_seq(s).len() ==> exists|i: int|
                0 <= i < s.len() && #[trigger] decay_seq(s)[j] == aged(#[trigger] s[i]),
        forall|j: int| 0 <= j < decay_seq(s).len() ==> #[trigger] decay_seq(s)[j].ttl > 0,
    decreases s.len(),
{
    if s.len() > 0 {
        lemma_decay_from(s.drop_last());
        let rest = decay_seq(s.drop_last());
        assert forall|j: int| 0 <= j < decay_seq(s).len() implies exists|i: int|
            0 <= i < s.len() && #[trigger] decay_seq(s)[j] == aged(#[trigger] s[i]) by {
            if j < rest.len() {
                let i = choose|i: int| 0 <= i < s.drop_last().len() && #[trigger] rest[j] == aged(#[trigger] s.drop_last()[i]);
                assert(s[i] == s.drop_last()[i]);
            } else {
                assert(decay_seq(s)[j] == aged(s[s.len() - 1]));
            }
        }
    }
}

/// Ageing keeps the keys unique.
pub proof fn lemma_decay_unique(s: Seq<Track>)
    requires
        unique_keys(s),
    ensures
        unique_keys(decay_seq(s)),
    decreases s.len(),
{
    if s.len() > 0 {
        let rest = decay_seq(s.drop_last());
        assert(unique_keys(s.drop_last()));
        lemma_decay_unique(s.drop_last());
        lemma_decay_from(s.drop_last());
        if aged(s.last()).ttl > 0 {
            assert forall|i: int, j: int| 0 <= i < j < decay_seq(s).len() implies #[trigger] decay_seq(s)[i].key
                != #[trigger] decay_seq(s)[j].key by {
                if j == rest.len() {
                    let m = choose|m: int|
                        0 <= m < s.drop_last().len() && #[trigger] rest[i] == aged(#[trigger] s.drop_last()[m]);
                    assert(s[m] == s.drop_last()[m]);
                    assert(s[m].key != s[s.len() - 1].key);
                } else {
                    assert(decay_seq(s)[i] == rest[i]);
                    assert(decay_seq(s)[j] == rest[j]);
                }
            }
        }
    }
}

/// Storing a track keeps the keys unique, and afterwards the track is stored
/// exactly once under its key while every other track is kept.
pub proof fn lemma_insert(s: Seq<Track>, t: Track)
    requires
        unique_keys(s),
    ensures
        unique_keys(insert_seq(s, t)),
        has_key(insert_seq(s, t), t.key),
        forall|i: int|
            0 <= i < insert_seq(s, t).len() && #[trigger] insert_seq(s, t)[i].key == t.key ==> insert_seq(s, t)[i] == t,
        forall|i: int|
            0 <= i < s.len() && s[i].key != t.key ==> #[trigger] insert_seq(s, t)[i] == s[i],
        insert_seq(s, t).len() == s.len() + (if has_key(s, t.key) { 0int } else { 1int }),
{
    let r = insert_seq(s, t);
    if has_key(s, t.key) {
        lemma_key_pos(s, t.key);
        let p = key_pos(s, t.key);
        assert(r[p] == t);
        assert(unique_keys(r)) by {
            assert forall|i: int, j: int| 0 <= i < j < r.len() implies #[trigger] r[i].key != #[trigger] r[j].key by {
                if i == p {
                    assert(s[j].key != s[p].key);
                } else if j == p {
                    assert(s[i].key != s[p].key);
                } else {
                    assert(s[i].key != s[j].key);
                }
            }
        }
    } else {
        assert(r[s.len() as int] == t);
        assert(unique_keys(r)) by {
            assert forall|i: int, j: int| 0 <= i < j < r.len() implies #[trigger] r[i].key != #[trigger] r[j].key by {
                if j == s.len() {
                    assert(r[i] == s[i]);
                    if s[i].key == t.key {
                        assert(has_key(s, t.key));
                    }
                } else {
                    assert(s[i].key != s[j].key);
                }
            }
        }
    }
}

/// Storing boxes keeps the keys unique.
pub proof fn lemma_insert_all_unique(s: Seq<Track>, boxes: Seq<BBox>, grid: int, ttl: u32)
    requires
        unique_keys(s),
    ensures
        unique_keys(insert_all(s, boxes, grid, ttl)),
    decreases boxes.len(),
{
    if boxes.len() > 0 {
        lemma_insert_all_unique(s, boxes.drop_last(), grid, ttl);
        lemma_insert(insert_all(s, boxes.drop_last(), grid, ttl), track_of(boxes.last(), grid, ttl));
    }
}

/// `t` is one of the tracks of `s`.
pub open spec fn has_track(s: Seq<Track>, t: Track) -> bool {
    exists|i: int| 0 <= i < s.len() && #[trigger] s[i] == t
}

/// A box detected on a detection frame is tracked afterwards with the full
/// time to live, unless a later box of the same frame falls in the same grid
/// cell (the later one replaces it). The keys stay unique.
pub proof fn law_detected_boxes_are_tracked(s: Seq<Track>, boxes: Seq<BBox>, grid: int, ttl: u32, i: int)
    requires
        unique_keys(s),
        0 <= i < boxes.len(),
        forall|j: int| i < j < boxes.len() ==> grid_key_spec(#[trigger] boxes[j], grid) != grid_key_spec(boxes[i], grid),
    ensures
        has_track(insert_all(s, boxes, grid, ttl), track_of(boxes[i], grid, ttl)),
        unique_keys(insert_all(s, boxes, grid, ttl)),
    decreases boxes.len(),
{
    lemma_insert_all_unique(s, boxes, grid, ttl);
    let mid = insert_all(s, boxes.drop_last(), grid, ttl);
    let last = track_of(boxes.last(), grid, ttl);
    lemma_insert_all_unique(s, boxes.drop_last(), grid, ttl);
    lemma_insert(mid, last);
    let r = insert_seq(mid, last);
    if i == boxes.len() - 1 {
        let p = choose|p: int| 0 <= p < r.len() && #[trigger] r[p].key == last.key;
        assert(r[p] == last);
    } else {
        assert forall|j: int| i < j < boxes.drop_last().len() implies grid_key_spec(
            #[trigger] boxes.drop_last()[j],
            grid,
        ) != grid_key_spec(boxes.drop_last()[i], grid) by {
            assert(boxes.drop_last()[j] == boxes[j]);
        }
        law_detected_boxes_are_tracked(s, boxes.drop_last(), grid, ttl, i);
        let t = track_of(boxes[i], grid, ttl);
        assert(boxes.drop_last()[i] == boxes[i]);
        let m = choose|m: int| 0 <= m < mid.len() && #[trigger] mid[m] == t;
        assert(grid_key_spec(boxes[boxes.len() - 1], grid) != grid_key_spec(boxes[i], grid));
        assert(r[m] == mid[m]);
    }
}

/// Storing a track keeps every track whose key differs from it.
proof fn lemma_insert_keeps_other(s: Seq<Track>, t: Track, u: Track)
    requires
        has_track(s, u),
        u.key != t.key,
    ensures
        has_track(insert_seq(s, t), u),
{
    let m = choose|m: int| 0 <= m < s.len() && #[trigger] s[m] == u;
    if has_key(s, t.key) {
        let p = key_pos(s, t.key);
        assert(s[p].key == t.key);
        assert(p != m);
        assert(insert_seq(s, t)[m] == u);
    } else {
        assert(insert_seq(s, t)[m] == u);
    }
}

/// Storing boxes keeps every track whose key no box has.
proof fn lemma_insert_all_keeps_other(s: Seq<Track>, boxes: Seq<BBox>, grid: int, ttl: u32, u: Track)
    requires
        has_track(s, u),
        forall|j: int| 0 <= j < boxes.len() ==> grid_key_spec(#[trigger] boxes[j], grid) != u.key,
    ensures
        has_track(insert_all(s, boxes, grid, ttl), u),
    decreases boxes.len(),
{
    if boxes.len() > 0 {
        assert forall|j: int| 0 <= j < boxes.drop_last().len() implies grid_key_spec(
            #[trigger] boxes.drop_last()[j],
            grid,
        ) != u.key by {
            assert(boxes.drop_last()[j] == boxes[j]);
        }
        lemma_insert_all_keeps_other(s, boxes.drop_last(), grid, ttl, u);
        assert(grid_key_spec(boxes[boxes.len() - 1], grid) != u.key);
        lemma_insert_keeps_other(insert_all(s, boxes.drop_last(), grid, ttl), track_of(boxes.last(), grid, ttl), u);
    }
}

/// A track outlives frames on which it is not found: on every frame of an
/// active kind, a detection frame or not, a track with more than one frame
/// to live stays, one frame older, unless a box of that frame has its key.
/// A face the detector misses once is still tracked (and blurred).
pub proof fn law_tracks_outlive_missed_detections(
    s: Seq<Track>,
    detect: bool,
    boxes: Seq<BBox>,
    grid: int,
    ttl: u32,
    i: int,
)
    requires
        0 <= i < s.len(),
        s[i].ttl > 1,
        forall|j: int| 0 <= j < boxes.len() ==> grid_key_spec(#[trigger] boxes[j], grid) != s[i].key,
    ensures
        has_track(track_frame(s, true, detect, boxes, grid, ttl), aged(s[i])),
{
    law_decay(s, i);
    if detect {
        lemma_insert_all_keeps_other(decay_seq(s), boxes, grid, ttl, aged(s[i]));
    }
}

/// After a frame, every remaining track has at least one frame to live, and
/// each track that had more than one frame left is still there, one frame
/// older.
pub proof fn law_decay(s: Seq<Track>, i: int)
    requires
        0 <= i < s.len(),
    ensures
        forall|j: int| 0 <= j < decay_seq(s).len() ==> #[trigger] decay_seq(s)[j].ttl >= 1,
        s[i].ttl > 1 ==> has_track(decay_seq(s), aged(s[i])),
        s[i].ttl <= 1 ==> !has_track(decay_seq(s), aged(s[i])),
    decreases s.len(),
{
    lemma_decay_from(s);
    let rest = decay_seq(s.drop_last());
    if i == s.len() - 1 {
        if s[i].ttl > 1 {
            assert(decay_seq(s)[rest.len() as int] == aged(s[i]));
        }
    } else {
        law_decay(s.drop_last(), i);
        assert(s.drop_last()[i] == s[i]);
        if s[i].ttl > 1 {
            let m = choose|m: int| 0 <= m < rest.len() && #[trigger] rest[m] == aged(s[i]);
            assert(decay_seq(s)[m] == rest[m]);
        }
    }
    if s[i].ttl <= 1 && has_track(decay_seq(s), aged(s[i])) {
        let m = choose|m: int| 0 <= m < decay_seq(s).len() && #[trigger] decay_seq(s)[m] == aged(s[i]);
        assert(decay_seq(s)[m].ttl > 0);
    }
}

/// The tracks of one kind of object, with unique keys, kept in a `Vec` in
/// the order they were first inserted; the uniqueness of keys is the
/// buffer's invariant.
pub struct TrackBuffer {
    tracks: Vec<Track>,
}

impl View for TrackBuffer {
    type V = Seq<Track>;

    closed spec fn view(&self) -> Seq<Track> {
        self.tracks@
    }
}

impl TrackBuffer {
    /// Keys are unique.
    pub open spec fn wf(&self) -> bool {
        unique_keys(self@)
    }

    /// An empty buffer.
    pub fn new() -> (b: Self)
        ensures
            b@ == Seq::<Track>::empty(),
            b.wf(),
    {
        TrackBuffer { tracks: Vec::new() }
    }

    /// The tracks, in the order they are applied.
    pub fn tracks(&self) -> (s: &[Track])
        ensures
            s@ == self@,
    {
        self.tracks.as_slice()
    }

    /// Number of tracks.
    pub fn len(&self) -> (n: usize)
        ensures
            n == self@.len(),
    {
        self.tracks.len()
    }

    /// Ages every track by one frame and drops those whose time ran out.
    pub fn decay(&mut self)
        requires
            old(self).wf(),
        ensures
            final(self)@ == decay_seq(old(self)@),
            final(self).wf(),
    {
        let ghost s0 = self@;
        let mut out: Vec<Track> = Vec::new();
        let mut i: usize = 0;
        while i < self.tracks.len()
            invariant
                self@ == s0,
                i <= s0.len(),
                out@ == decay_seq(s0.take(i as int)),
            decreases s0.len() - i,
        {
            let t = self.tracks[i];
            let ttl = t.ttl.saturating_sub(1);
            proof {
                assert(s0.take(i as int + 1).drop_last() =~= s0.take(i as int));
                assert(s0.take(i as int + 1).last() == s0[i as int]);
            }
            if ttl > 0 {
                out.push(Track { key: t.key, bbox: t.bbox, ttl });
            }
            i = i + 1;
        }
        proof {
            assert(s0.take(s0.len() as int) =~= s0);
            lemma_decay_unique(s0);
        }
        self.tracks = out;
    }

    /// Stores `t`, replacing the track with the same key if there is one.
    pub fn insert(&mut self, t: Track)
        requires
            old(self).wf(),
        ensures
            final(self)@ == insert_seq(old(self)@, t),
            final(self).wf(),
    {
        let ghost s0 = self@;
        proof {
            lemma_insert(s0, t);
        }
        let mut i: usize = 0;
        let mut found = false;
        while i < self.tracks.len()
            invariant_except_break
                self@ == s0,
                i <= s0.len(),
                !found,
                forall|j: int| 0 <= j < i ==> #[trigger] s0[j].key != t.key,
            ensures
                self@ == s0,
                i <= s0.len(),
                found ==> i < s0.len() && s0[i as int].key == t.key,
                !found ==> forall|j: int| 0 <= j < s0.len() ==> #[trigger] s0[j].key != t.key,
            decreases s0.len() - i,
        {
            let k = self.tracks[i].key;
            if k.0 == t.key.0 && k.1 == t.key.1 && k.2 == t.key.2 && k.3 == t.key.3 {
                found = true;
                break;
            }
            i = i + 1;
        }
        if found {
            proof {
                assert(has_key(s0, t.key));
                lemma_key_pos(s0, t.key);
            }
            self.tracks.set(i, t);
        } else {
            proof {
                if has_key(s0, t.key) {
                    let p = choose|p: int| 0 <= p < s0.len() && #[trigger] s0[p].key == t.key;
                    assert(s0[p].key != t.key);
                }
            }
            self.tracks.push(t);
        }
        assert(self@ =~= insert_seq(s0, t));
    }
}

/// The grid key of a box.
pub fn grid_key(b: &BBox, grid: usize) -> (k: (usize, usize, usize, usize))
    requires
        grid > 0,
    ensures
        k == grid_key_spec(*b, grid as int),
{
    (b.x / grid, b.y / grid, b.x2 / grid, b.y2 / grid)
}

/// Stores every box of `boxes` in `buf` with time to live `ttl`.
fn insert_boxes(buf: &mut TrackBuffer, boxes: &[BBox], grid: usize, ttl: u32)
    requires
        old(buf).wf(),
        grid > 0,
    ensures
        final(buf)@ == insert_all(old(buf)@, boxes@, grid as int, ttl),
        final(buf).wf(),
{
    let ghost s0 = buf@;
    let mut i: usize = 0;
    while i < boxes.len()
        invariant
            buf.wf(),
            grid > 0,
            i <= boxes@.len(),
            buf@ == insert_all(s0, boxes@.take(i as int), grid as int, ttl),
        decreases boxes@.len() - i,
    {
        let b = boxes[i];
        let key = grid_key(&b, grid);
        proof {
            assert(boxes@.take(i as int + 1).drop_last() =~= boxes@.take(i as int));
            assert(boxes@.take(i as int + 1).last() == boxes@[i as int]);
        }
        buf.insert(Track { key, bbox: b, ttl });
        i = i + 1;
    }
    proof {
        assert(boxes@.take(boxes@.len() as int) =~= boxes@);
    }
}

/// Updates the face and plate tracks for one frame and returns how many faces
/// and plates were newly detected in it. The tracks of each kind the job
/// blurs age by one frame; on a detection frame the detected boxes (`faces`,
/// `plates`) are stored with their full time to live. Kinds the job does not
/// blur are left alone, and their detections are ignored, as are all
/// detections on frames that are not detection frames.
pub fn process_detection_frame(
    mode: BlurMode,
    should_detect: bool,
    face_buf: &mut TrackBuffer,
    plate_buf: &mut TrackBuffer,
    faces: &[BBox],
    plates: &[BBox],
    plate_grid: usize,
) -> (counts: (u64, u64))
    requires
        old(face_buf).wf(),
        old(plate_buf).wf(),
        plate_grid > 0,
    ensures
        final(face_buf).wf(),
        final(plate_buf).wf(),
        final(face_buf)@ == track_frame(
            old(face_buf)@,
            faces_active(mode),
            should_detect,
            faces@,
            FACE_GRID as int,
            FACE_TTL,
        ),
        final(plate_buf)@ == track_frame(
            old(plate_buf)@,
            plates_active(mode),
            should_detect,
            plates@,
            plate_grid as int,
            PLATE_TTL,
        ),
        counts.0 == (if faces_active(mode) && should_detect {
            faces@.len() as int
        } else {
            0
        }),
        counts.1 == (if plates_active(mode) && should_detect {
            plates@.len() as int
        } else {
            0
        }),
{
    let mut new_faces: u64 = 0;
    let mut new_plates: u64 = 0;
    if matches!(mode, BlurMode::Faces | BlurMode::Both) {
        face_buf.decay();
        if should_detect {
            new_faces = faces.len() as u64;
            insert_boxes(face_buf, faces, FACE_GRID, FACE_TTL);
        }
    }
    if matches!(mode, BlurMode::Plates | BlurMode::Both) {
        plate_buf.decay();
        if should_detect {
            new_plates = plates.len() as u64;
            insert_boxes(plate_buf, plates, plate_grid, PLATE_TTL);
        }
    }
    (new_faces, new_plates)
}

} // verus!
