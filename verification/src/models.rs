//! Detection models: which ids are acceptable, which file of an archive is
//! installed, where model files live, which models a job uses, and how the
//! selection of active models changes.
use vstd::prelude::*;
use vstd::string::StringExecFns;
use vstd::utf8::{encode_utf8, is_char_boundary};
use vstd::string::StringSliceAdditionalSpecFns;
use crate::text::{
    chars_of, contains_chars, contains_spec, decimal, ends_with_chars, ends_with_spec, push_decimal, push_str,
    starts_with_chars, starts_with_spec, str_eq, string_of,
};
use crate::tracking::{faces_active, plates_active, BlurMode};

verus! {

/// Whether `char::is_alphanumeric` holds for `c` (Unicode Alphabetic or Numeric).
pub uninterp spec fn unicode_alphanumeric(c: char) -> bool;

/// Whether `c` is an ASCII character.
pub open spec fn is_ascii_char(c: char) -> bool {
    (c as u32) < 128
}

/// An ASCII digit or letter: 0-9, a-z, A-Z.
pub open spec fn ascii_alphanumeric(c: char) -> bool {
    ||| ('0' <= c && c <= '9')
    ||| ('a' <= c && c <= 'z')
    ||| ('A' <= c && c <= 'Z')
}

/// `char::is_alphanumeric`: whether `c` has the Unicode property Alphabetic or
/// Numeric. Among the ASCII characters these are exactly the digits and the
/// letters. Beyond ASCII the answer rests on Unicode's tables and is not
/// stated here; the result is only named.
#[verifier::external_body]
fn is_alphanumeric(c: char) -> (r: bool)
    ensures
        r == unicode_alphanumeric(c),
        is_ascii_char(c) ==> (r == ascii_alphanumeric(c)),
{
    c.is_alphanumeric()
}

/// A character allowed in a model id, given whether it is alphanumeric.
pub open spec fn id_char_ok(c: char, alnum: bool) -> bool {
    alnum || c == '.' || c == '_' || c == '-'
}

/// A model id: not empty, at most 80 bytes in UTF-8, and made of
/// alphanumeric characters, '.', '_' and '-'. `alnum[i]` says whether
/// character `i` is alphanumeric.
pub open spec fn model_id_ok_spec(id: Seq<char>, alnum: Seq<bool>) -> bool {
    &&& id.len() > 0
    &&& encode_utf8(id).len() <= 80
    &&& forall|i: int| 0 <= i < id.len() ==> #[trigger] id_char_ok(id[i], alnum[i])
}

/// Checks a model id against the rule, given for each of its characters
/// whether it is alphanumeric.
pub fn model_id_ok(id: &str, alnum: &[bool]) -> (r: bool)
    requires
        alnum@.len() == id@.len(),
    ensures
        r == model_id_ok_spec(id@, alnum@),
{
    if id.is_empty() || id.as_bytes().len() > 80 {
        return false;
    }
    let v = chars_of(id);
    let mut i: usize = 0;
    while i < v.len()
        invariant
            v@ == id@,
            alnum@.len() == id@.len(),
            i <= v@.len(),
            forall|j: int| 0 <= j < i ==> #[trigger] id_char_ok(id@[j], alnum@[j]),
        decreases v@.len() - i,
    {
        let c = v[i];
        if !(alnum[i] || c == '.' || c == '_' || c == '-') {
            assert(!id_char_ok(id@[i as int], alnum@[i as int]));
            return false;
        }
        i = i + 1;
    }
    true
}

/// Whether `id` is an acceptable model id.
pub fn validate_model_id(id: &str) -> (r: bool)
    ensures
        r == model_id_ok_spec(id@, id@.map_values(|c: char| unicode_alphanumeric(c))),
        (forall|i: int| 0 <= i < id@.len() ==> is_ascii_char(#[trigger] id@[i])) ==> (r == model_id_ok_spec(
            id@,
            id@.map_values(|c: char| ascii_alphanumeric(c)),
        )),
        r ==> forall|i: int|
            0 <= i < id@.len() && is_ascii_char(#[trigger] id@[i]) ==> id_char_ok(id@[i], ascii_alphanumeric(id@[i])),
{
    let v = chars_of(id);
    let mut flags: Vec<bool> = Vec::new();
    let mut i: usize = 0;
    while i < v.len()
        invariant
            v@ == id@,
            i <= v@.len(),
            flags@ == v@.take(i as int).map_values(|c: char| unicode_alphanumeric(c)),
            forall|j: int|
                0 <= j < i && is_ascii_char(v@[j]) ==> #[trigger] unicode_alphanumeric(v@[j]) == ascii_alphanumeric(v@[j]),
        decreases v@.len() - i,
    {
        flags.push(is_alphanumeric(v[i]));
        proof {
            assert(v@.take(i as int + 1).map_values(|c: char| unicode_alphanumeric(c)) =~= v@.take(
                i as int,
            ).map_values(|c: char| unicode_alphanumeric(c)).push(unicode_alphanumeric(v@[i as int])));
        }
        i = i + 1;
    }
    assert(v@.take(v@.len() as int) =~= v@);
    let r = model_id_ok(id, flags.as_slice());
    proof {
        let uni = id@.map_values(|c: char| unicode_alphanumeric(c));
        let asc = id@.map_values(|c: char| ascii_alphanumeric(c));
        if forall|i: int| 0 <= i < id@.len() ==> is_ascii_char(#[trigger] id@[i]) {
            assert forall|i: int| 0 <= i < id@.len() implies uni[i] == asc[i] by {
                assert(is_ascii_char(id@[i]));
                assert(unicode_alphanumeric(v@[i]) == ascii_alphanumeric(v@[i]));
            }
            assert(uni =~= asc);
        }
        if r {
            assert forall|i: int| 0 <= i < id@.len() && is_ascii_char(#[trigger] id@[i]) implies id_char_ok(
                id@[i],
                ascii_alphanumeric(id@[i]),
            ) by {
                assert(id_char_ok(id@[i], uni[i]));
                assert(unicode_alphanumeric(v@[i]) == ascii_alphanumeric(v@[i]));
            }
        }
    }
    r
}

/// The part of `n` after its last '/'.
pub open spec fn basename(n: Seq<char>) -> Seq<char>
    decreases n.len(),
{
    if n.len() == 0 {
        n
    } else if n.last() == '/' {
        Seq::empty()
    } else {
        basename(n.drop_last()).push(n.last())
    }
}

/// An archive entry that can be installed: an ONNX file outside macOS metadata.
pub open spec fn is_onnx_entry(n: Seq<char>) -> bool {
    ends_with_spec(n, ".onnx"@) && !contains_spec(n, "__MACOSX"@)
}

/// An InsightFace face detector: its file name starts with "det_".
pub open spec fn is_detector_entry(n: Seq<char>) -> bool {
    is_onnx_entry(n) && starts_with_spec(basename(n), "det_"@)
}

/// The first entry of `names` that is a detector.
pub open spec fn first_detector(names: Seq<Seq<char>>) -> Option<Seq<char>>
    decreases names.len(),
{
    if names.len() == 0 {
        None
    } else if is_detector_entry(names[0]) {
        Some(names[0])
    } else {
        first_detector(names.drop_first())
    }
}

/// The first entry of `names` that is an ONNX file.
pub open spec fn first_onnx(names: Seq<Seq<char>>) -> Option<Seq<char>>
    decreases names.len(),
{
    if names.len() == 0 {
        None
    } else if is_onnx_entry(names[0]) {
        Some(names[0])
    } else {
        first_onnx(names.drop_first())
    }
}

/// The model file to take from an archive: InsightFace packs (buffalo_l,
/// buffalo_sc) hold several models, of which the detector is `det_*.onnx`;
/// without one, the first ONNX file.
pub open spec fn choose_onnx_spec(names: Seq<Seq<char>>) -> Option<Seq<char>> {
    match first_detector(names) {
        Some(n) => Some(n),
        None => first_onnx(names),
    }
}

/// The characters after the last '/' of `n`.
fn basename_of(n: &[char]) -> (r: Vec<char>)
    ensures
        r@ == basename(n@),
{
    let mut r: Vec<char> = Vec::new();
    let mut i: usize = 0;
    while i < n.len()
        invariant
            i <= n@.len(),
            r@ == basename(n@.take(i as int)),
        decreases n@.len() - i,
    {
        proof {
            assert(n@.take(i as int + 1).drop_last() =~= n@.take(i as int));
            assert(n@.take(i as int + 1).last() == n@[i as int]);
        }
        if n[i] == '/' {
            r = Vec::new();
        } else {
            r.push(n[i]);
        }
        i = i + 1;
    }
    assert(n@.take(n@.len() as int) =~= n@);
    r
}

fn onnx_entry(n: &str) -> (r: bool)
    ensures
        r == is_onnx_entry(n@),
{
    let v = chars_of(n);
    let ext = chars_of(".onnx");
    let mac = chars_of("__MACOSX");
    ends_with_chars(v.as_slice(), ext.as_slice()) && !contains_chars(v.as_slice(), mac.as_slice())
}

fn detector_entry(n: &str) -> (r: bool)
    ensures
        r == is_detector_entry(n@),
{
    if !onnx_entry(n) {
        return false;
    }
    let v = chars_of(n);
    let b = basename_of(v.as_slice());
    let det = chars_of("det_");
    starts_with_chars(b.as_slice(), det.as_slice())
}

/// The names held by `v`.
pub open spec fn names_view(v: Seq<String>) -> Seq<Seq<char>> {
    v.map_values(|s: String| s@)
}

/// Picks the model file of an archive from its entry names.
pub fn choose_onnx(names: &[String]) -> (r: Option<String>)
    ensures
        match r {
            Some(s) => choose_onnx_spec(names_view(names@)) == Some(s@),
            None => choose_onnx_spec(names_view(names@)) == None::<Seq<char>>,
        },
{
    let ghost nv = names_view(names@);
    assert(nv.subrange(0, nv.len() as int) =~= nv);
    let mut i: usize = 0;
    while i < names.len()
        invariant
            nv == names_view(names@),
            i <= nv.len(),
            first_detector(nv) == first_detector(nv.subrange(i as int, nv.len() as int)),
        decreases nv.len() - i,
    {
        proof {
            assert(nv.subrange(i as int, nv.len() as int).drop_first() =~= nv.subrange(i + 1, nv.len() as int));
        }
        if detector_entry(names[i].as_str()) {
            return Some(names[i].clone());
        }
        i = i + 1;
    }
    proof {
        assert(first_detector(nv.subrange(i as int, nv.len() as int)) == None::<Seq<char>>);
    }
    let mut j: usize = 0;
    assert(nv.subrange(0, nv.len() as int) =~= nv);
    while j < names.len()
        invariant
            nv == names_view(names@),
            j <= nv.len(),
            first_detector(nv) == None::<Seq<char>>,
            first_onnx(nv) == first_onnx(nv.subrange(j as int, nv.len() as int)),
        decreases nv.len() - j,
    {
        proof {
            assert(nv.subrange(j as int, nv.len() as int).drop_first() =~= nv.subrange(j + 1, nv.len() as int));
        }
        if onnx_entry(names[j].as_str()) {
            return Some(names[j].clone());
        }
        j = j + 1;
    }
    None
}

/// `name` appended to the directory `base` as `PathBuf::push` does on Unix:
/// an absolute `name` replaces `base`, and a '/' separates them where `base`
/// does not end with one.
pub open spec fn join_path_spec(base: Seq<char>, name: Seq<char>) -> Seq<char> {
    if name.len() > 0 && name[0] == '/' {
        name
    } else if base.len() == 0 || base.last() == '/' {
        base + name
    } else {
        base + seq!['/'] + name
    }
}

/// Joins `name` onto the directory `base`.
pub fn join_path(base: &str, name: &str) -> (r: String)
    ensures
        r@ == join_path_spec(base@, name@),
{
    let b = chars_of(base);
    let n = chars_of(name);
    if n.len() > 0 && n[0] == '/' {
        return String::from_str(name);
    }
    let mut r = String::from_str(base);
    if !(b.len() == 0 || b[b.len() - 1] == '/') {
        crate::text::push_char(&mut r, '/');
    }
    push_str(&mut r, name);
    assert(r@ =~= join_path_spec(base@, name@));
    r
}

/// The file of model `id` in the model directory: `<models_path>/<id>.onnx`.
pub open spec fn model_file_spec(models_path: Seq<char>, id: Seq<char>) -> Seq<char> {
    join_path_spec(models_path, id + ".onnx"@)
}

/// The file of model `id` in `models_path`.
pub fn model_file(models_path: &str, id: &str) -> (r: String)
    ensures
        r@ == model_file_spec(models_path@, id@),
{
    let mut f = String::from_str(id);
    push_str(&mut f, ".onnx");
    join_path(models_path, f.as_str())
}

/// The id of the face model that is built in.
pub open spec fn builtin_face() -> Seq<char> {
    "builtin-centerface"@
}

/// The models one blur job uses.
#[derive(Debug)]
pub struct ResolvedModels {
    pub face_model_name: String,
    pub face_yolo_path: Option<String>,
    pub face_scrfd_path: Option<String>,
    pub plate_model_path: Option<String>,
    pub use_centerface: bool,
}

/// The optional text of `o`.
pub open spec fn opt_view(o: Option<String>) -> Option<Seq<char>> {
    match o {
        Some(s) => Some(s@),
        None => None,
    }
}

/// Why a job cannot get its models.
#[derive(Debug)]
pub enum ResolveError {
    /// A plates-only job, and no plate model is active.
    NoPlateModel,
    /// A plates-only job, and the active plate model's file is missing.
    PlateModelMissing(String),
}

impl ResolveError {
    /// The error text the service reports.
    pub fn message(&self) -> (m: String)
        ensures
            m@ == (match self {
                ResolveError::NoPlateModel => "Kennzeichen-Blur angefordert, aber kein Kennzeichen-Modell aktiv."@,
                ResolveError::PlateModelMissing(id) => "Kennzeichen-Modell '"@ + id@ + "' nicht gefunden."@,
            }),
    {
        match self {
            ResolveError::NoPlateModel => String::from_str(
                "Kennzeichen-Blur angefordert, aber kein Kennzeichen-Modell aktiv.",
            ),
            ResolveError::PlateModelMissing(id) => {
                let mut m = String::from_str("Kennzeichen-Modell '");
                push_str(&mut m, id.as_str());
                push_str(&mut m, "' nicht gefunden.");
                m
            },
        }
    }
}

/// The plate model file a job uses: for jobs with plates, the active plate
/// model's file where it exists; `Err` for a plates-only job without one.
pub open spec fn plate_choice(
    mode: BlurMode,
    plate_model: Option<Seq<char>>,
    plate_file: Seq<char>,
    plate_exists: bool,
) -> Result<Option<Seq<char>>, ()> {
    if !plates_active(mode) {
        Ok(None)
    } else {
        match plate_model {
            None => if mode == BlurMode::Plates {
                Err(())
            } else {
                Ok(None)
            },
            Some(id) => if !plate_exists {
                if mode == BlurMode::Plates {
                    Err(())
                } else {
                    Ok(None)
                }
            } else {
                Ok(Some(plate_file))
            },
        }
    }
}

/// The texts held by `v`.
pub open spec fn texts(v: Seq<String>) -> Seq<Seq<char>> {
    v.map_values(|s: String| s@)
}

/// The log lines of a successful resolution: a job with faces and plates
/// whose plate model is missing goes on with faces only, and a face model
/// whose file is missing falls back to CenterFace.
pub open spec fn resolve_notes(
    mode: BlurMode,
    plate_model: Option<Seq<char>>,
    plate_exists: bool,
    face_name: Seq<char>,
    use_centerface: bool,
) -> Seq<Seq<char>> {
    let plate_note = if mode == BlurMode::Both {
        match plate_model {
            None => seq!["Kein Kennzeichen-Modell aktiv – nur Gesichter."@],
            Some(id) => if !plate_exists {
                seq!["Kennzeichen-Modell nicht gefunden ("@ + id + ") – nur Gesichter."@]
            } else {
                Seq::empty()
            },
        }
    } else {
        Seq::empty()
    };
    let face_note = if use_centerface && face_name != builtin_face() {
        seq!["WARNUNG: Gesichts-Modell '"@ + face_name + "' nicht gefunden – Fallback auf CenterFace"@]
    } else {
        Seq::empty()
    };
    plate_note + face_note
}

/// Resolves the models of a job. `face_model` and `plate_model` are the
/// active selections, `face_exists` and `plate_exists` whether their files
/// (`model_file` in `models_path`) exist. Alongside the models come the log
/// lines the service writes about fallbacks.
pub fn resolve_models(
    face_model: Option<&str>,
    plate_model: Option<&str>,
    mode: BlurMode,
    models_path: &str,
    face_exists: bool,
    plate_exists: bool,
) -> (r: Result<(ResolvedModels, Vec<String>), ResolveError>)
    ensures
        ({
            let name = match face_model {
                Some(f) => f@,
                None => builtin_face(),
            };
            let face_file = model_file_spec(models_path@, name);
            let alt = faces_active(mode) && name != builtin_face() && face_exists;
            let scrfd = starts_with_spec(name, "scrfd-"@);
            let pc = plate_choice(
                mode,
                match plate_model {
                    Some(p) => Some(p@),
                    None => None,
                },
                match plate_model {
                    Some(p) => model_file_spec(models_path@, p@),
                    None => Seq::empty(),
                },
                plate_exists,
            );
            match r {
                Ok((m, logs)) => {
                    &&& texts(logs@) == resolve_notes(
                        mode,
                        match plate_model {
                            Some(p) => Some(p@),
                            None => None,
                        },
                        plate_exists,
                        name,
                        m.use_centerface,
                    )
                    &&& pc is Ok
                    &&& opt_view(m.plate_model_path) == pc->Ok_0
                    &&& m.face_model_name@ == name
                    &&& opt_view(m.face_scrfd_path) == (if alt && scrfd {
                        Some(face_file)
                    } else {
                        None
                    })
                    &&& opt_view(m.face_yolo_path) == (if alt && !scrfd {
                        Some(face_file)
                    } else {
                        None
                    })
                    &&& m.use_centerface == (faces_active(mode) && !alt)
                },
                Err(ResolveError::NoPlateModel) => pc is Err && plate_model is None,
                Err(ResolveError::PlateModelMissing(id)) => pc is Err && (plate_model matches Some(p) && id@ == p@),
            }
        }),
{
    let mut logs: Vec<String> = Vec::new();
    let plates_on = matches!(mode, BlurMode::Plates | BlurMode::Both);
    let plate_model_path: Option<String> = if plates_on {
        match plate_model {
            None => {
                if matches!(mode, BlurMode::Plates) {
                    return Err(ResolveError::NoPlateModel);
                }
                let ghost l0 = texts(logs@);
                logs.push(String::from_str("Kein Kennzeichen-Modell aktiv – nur Gesichter."));
                proof {
                    assert(texts(logs@) =~= l0.push("Kein Kennzeichen-Modell aktiv – nur Gesichter."@));
                }
                None
            },
            Some(id) => {
                if !plate_exists {
                    if matches!(mode, BlurMode::Plates) {
                        return Err(ResolveError::PlateModelMissing(String::from_str(id)));
                    }
                    let mut m = String::from_str("Kennzeichen-Modell nicht gefunden (");
                    push_str(&mut m, id);
                    push_str(&mut m, ") – nur Gesichter.");
                    let ghost l0 = texts(logs@);
                    let ghost mv = m@;
                    logs.push(m);
                    proof {
                        assert(texts(logs@) =~= l0.push(mv));
                    }
                    None
                } else {
                    Some(model_file(models_path, id))
                }
            },
        }
    } else {
        None
    };
    let name = match face_model {
        Some(f) => String::from_str(f),
        None => String::from_str("builtin-centerface"),
    };
    let nv = chars_of(name.as_str());
    let pre = chars_of("scrfd-");
    let is_scrfd = starts_with_chars(nv.as_slice(), pre.as_slice());
    let faces_on = matches!(mode, BlurMode::Faces | BlurMode::Both);
    let is_builtin = str_eq(name.as_str(), "builtin-centerface");
    let mut face_yolo_path: Option<String> = None;
    let mut face_scrfd_path: Option<String> = None;
    if faces_on && !is_builtin && face_exists {
        let p = model_file(models_path, name.as_str());
        if is_scrfd {
            face_scrfd_path = Some(p);
        } else {
            face_yolo_path = Some(p);
        }
    }
    let use_centerface = faces_on && face_yolo_path.is_none() && face_scrfd_path.is_none();
    let ghost before = texts(logs@);
    if use_centerface && !is_builtin {
        let mut m = String::from_str("WARNUNG: Gesichts-Modell '");
        push_str(&mut m, name.as_str());
        push_str(&mut m, "' nicht gefunden – Fallback auf CenterFace");
        let ghost mv = m@;
        logs.push(m);
        proof {
            assert(texts(logs@) =~= before.push(mv));
        }
    }
    Ok((ResolvedModels { face_model_name: name, face_yolo_path, face_scrfd_path, plate_model_path, use_centerface }, logs))
}

/// The face selection after model `id` was deleted.
pub open spec fn face_after_delete(face: Seq<char>, id: Seq<char>) -> Seq<char> {
    if face == id {
        builtin_face()
    } else {
        face
    }
}

/// The plate selection after model `id` was deleted.
pub open spec fn plate_after_delete(plate: Option<Seq<char>>, id: Seq<char>) -> Option<Seq<char>> {
    if plate == Some(id) {
        None
    } else {
        plate
    }
}

/// A deleted model (never the built-in one, which cannot be deleted) is no
/// longer selected, for faces or plates; other selections stay.
pub proof fn law_deleted_model_not_selected(face: Seq<char>, plate: Option<Seq<char>>, id: Seq<char>)
    requires
        id != builtin_face(),
    ensures
        face_after_delete(face, id) != id,
        plate_after_delete(plate, id) != Some(id),
        face != id ==> face_after_delete(face, id) == face,
        plate != Some(id) ==> plate_after_delete(plate, id) == plate,
{
}

/// The model chosen from an archive is one of its ONNX entries, a detector
/// whenever the archive holds one; there is none only when the archive holds
/// no ONNX entry.
pub proof fn law_chosen_entry(names: Seq<Seq<char>>)
    ensures
        choose_onnx_spec(names) matches Some(n) ==> names.contains(n) && is_onnx_entry(n),
        (exists|i: int| 0 <= i < names.len() && is_detector_entry(#[trigger] names[i])) ==> (
        choose_onnx_spec(names) matches Some(n) && is_detector_entry(n)),
        choose_onnx_spec(names) is None <==> !exists|i: int| 0 <= i < names.len() && is_onnx_entry(#[trigger] names[i]),
{
    lemma_first_detector(names);
    lemma_first_onnx(names);
}

proof fn lemma_first_detector(names: Seq<Seq<char>>)
    ensures
        first_detector(names) matches Some(n) ==> names.contains(n) && is_detector_entry(n),
        first_detector(names) is None <==> !exists|i: int| 0 <= i < names.len() && is_detector_entry(#[trigger] names[i]),
    decreases names.len(),
{
    if names.len() > 0 {
        lemma_first_detector(names.drop_first());
        if !is_detector_entry(names[0]) {
            if let Some(n) = first_detector(names.drop_first()) {
                let k = choose|k: int| 0 <= k < names.drop_first().len() && names.drop_first()[k] == n;
                assert(names[k + 1] == n);
            }
            if exists|i: int| 0 <= i < names.len() && is_detector_entry(#[trigger] names[i]) {
                let i = choose|i: int| 0 <= i < names.len() && is_detector_entry(#[trigger] names[i]);
                assert(names.drop_first()[i - 1] == names[i]);
            }
        } else {
            assert(names.contains(names[0]));
        }
    }
}

proof fn lemma_first_onnx(names: Seq<Seq<char>>)
    ensures
        first_onnx(names) matches Some(n) ==> names.contains(n) && is_onnx_entry(n),
        first_onnx(names) is None <==> !exists|i: int| 0 <= i < names.len() && is_onnx_entry(#[trigger] names[i]),
    decreases names.len(),
{
    if names.len() > 0 {
        lemma_first_onnx(names.drop_first());
        if !is_onnx_entry(names[0]) {
            if let Some(n) = first_onnx(names.drop_first()) {
                let k = choose|k: int| 0 <= k < names.drop_first().len() && names.drop_first()[k] == n;
                assert(names[k + 1] == n);
            }
            if exists|i: int| 0 <= i < names.len() && is_onnx_entry(#[trigger] names[i]) {
                let i = choose|i: int| 0 <= i < names.len() && is_onnx_entry(#[trigger] names[i]);
                assert(names.drop_first()[i - 1] == names[i]);
            }
        } else {
            assert(names.contains(names[0]));
        }
    }
}

/// The two kinds of detection model.
#[derive(Clone, Copy, Debug, PartialEq, Eq, Structural)]
pub enum ModelKind {
    Face,
    Plate,
}

/// The active models: a face model (the built-in one by default) and
/// possibly a plate model.
#[derive(Debug)]
pub struct ModelSelection {
    pub face_model: String,
    pub plate_model: Option<String>,
}

impl ModelSelection {
    /// The selection without a model file: built-in faces, no plates.
    pub fn new() -> (r: Self)
        ensures
            r.face_model@ == builtin_face(),
            r.plate_model is None,
    {
        ModelSelection { face_model: String::from_str("builtin-centerface"), plate_model: None }
    }

    /// Makes `id` the active model of `kind`; no id means the built-in face
    /// model, or no plate model.
    pub fn activate(&mut self, kind: ModelKind, id: Option<String>)
        ensures
            kind == ModelKind::Face ==> final(self).face_model@ == (match id {
                Some(s) => s@,
                None => builtin_face(),
            }) && opt_view(final(self).plate_model) == opt_view(old(self).plate_model),
            kind == ModelKind::Plate ==> opt_view(final(self).plate_model) == opt_view(id)
                && final(self).face_model@ == old(self).face_model@,
    {
        match kind {
            ModelKind::Face => {
                self.face_model = match id {
                    Some(s) => s,
                    None => String::from_str("builtin-centerface"),
                };
            },
            ModelKind::Plate => {
                self.plate_model = id;
            },
        }
    }

    /// Drops the deleted model `id` from the selection: a face selection
    /// falls back to the built-in model, a plate selection to none. Returns
    /// whether anything changed.
    pub fn forget(&mut self, id: &str) -> (changed: bool)
        ensures
            final(self).face_model@ == face_after_delete(old(self).face_model@, id@),
            opt_view(final(self).plate_model) == plate_after_delete(opt_view(old(self).plate_model), id@),
            changed == (old(self).face_model@ == id@ || opt_view(old(self).plate_model) == Some(id@)),
    {
        let mut changed = false;
        if str_eq(self.face_model.as_str(), id) {
            self.face_model = String::from_str("builtin-centerface");
            changed = true;
        }
        let drop_plate = match &self.plate_model {
            Some(p) => str_eq(p.as_str(), id),
            None => false,
        };
        if drop_plate {
            self.plate_model = None;
            changed = true;
        }
        changed
    }
}

/// A refused model request: the text and whether it is a missing resource
/// (404) rather than a bad request (400).
#[derive(Debug)]
pub struct RequestError {
    pub not_found: bool,
    pub message: String,
}

/// Checks a request to activate `id` as a model of `model_type` ("face" or
/// "plate"); `installed` says whether the model's file exists.
pub fn check_activation(model_type: &str, id: Option<&str>, installed: bool) -> (r: Result<ModelKind, RequestError>)
    ensures
        match r {
            Ok(k) => (model_type@ == "face"@ && k == ModelKind::Face || model_type@ == "plate"@ && k
                == ModelKind::Plate) && !(id matches Some(i) && i@ != builtin_face() && !installed),
            Err(e) => if model_type@ != "face"@ && model_type@ != "plate"@ {
                !e.not_found && e.message@ == "type muss 'face' oder 'plate' sein"@
            } else {
                (id matches Some(i) && i@ != builtin_face() && !installed && e.not_found && e.message@ == "Modell '"@
                    + i@ + "' nicht installiert – zuerst herunterladen"@)
            },
        },
{
    let kind = if str_eq(model_type, "face") {
        ModelKind::Face
    } else if str_eq(model_type, "plate") {
        ModelKind::Plate
    } else {
        return Err(RequestError { not_found: false, message: String::from_str("type muss 'face' oder 'plate' sein") });
    };
    if let Some(i) = id {
        if !str_eq(i, "builtin-centerface") && !installed {
            let mut m = String::from_str("Modell '");
            push_str(&mut m, i);
            push_str(&mut m, "' nicht installiert – zuerst herunterladen");
            return Err(RequestError { not_found: true, message: m });
        }
    }
    Ok(kind)
}

/// Checks a request to delete model `id`; `exists` says whether its file exists.
pub fn check_deletion(id: &str, exists: bool) -> (r: Result<(), RequestError>)
    ensures
        match r {
            Ok(()) => model_id_ok_spec(id@, id@.map_values(|c: char| unicode_alphanumeric(c))) && id@
                != builtin_face() && exists,
            Err(e) => if !model_id_ok_spec(id@, id@.map_values(|c: char| unicode_alphanumeric(c))) {
                !e.not_found && e.message@ == "Ungültige model_id"@
            } else if id@ == builtin_face() {
                !e.not_found && e.message@ == "Integriertes Modell kann nicht gelöscht werden"@
            } else {
                !exists && e.not_found && e.message@ == "Modell nicht gefunden"@
            },
        },
{
    if !validate_model_id(id) {
        return Err(RequestError { not_found: false, message: String::from_str("Ungültige model_id") });
    }
    if str_eq(id, "builtin-centerface") {
        return Err(
            RequestError { not_found: false, message: String::from_str("Integriertes Modell kann nicht gelöscht werden") },
        );
    }
    if !exists {
        return Err(RequestError { not_found: true, message: String::from_str("Modell nicht gefunden") });
    }
    Ok(())
}

/// Checks a request to install model `id` from `url` (both already trimmed).
pub fn check_install_request(id: &str, url: &str) -> (r: Result<(), RequestError>)
    ensures
        match r {
            Ok(()) => url@.len() > 0 && model_id_ok_spec(id@, id@.map_values(|c: char| unicode_alphanumeric(c))),
            Err(e) => !e.not_found && if id@.len() == 0 || url@.len() == 0 {
                e.message@ == "id und url erforderlich"@
            } else {
                !model_id_ok_spec(id@, id@.map_values(|c: char| unicode_alphanumeric(c))) && e.message@
                    == "Ungültige model_id"@
            },
        },
{
    if id.is_empty() || url.is_empty() {
        return Err(RequestError { not_found: false, message: String::from_str("id und url erforderlich") });
    }
    if !validate_model_id(id) {
        return Err(RequestError { not_found: false, message: String::from_str("Ungültige model_id") });
    }
    Ok(())
}

/// Largest model download accepted, in bytes.
pub const MAX_MODEL_BYTES: u64 = 524_288_000;

/// The files of an installation in `models_path`: the model, its
/// temporary download and a temporary archive.
pub fn install_paths(models_path: &str, id: &str) -> (r: (String, String, String))
    ensures
        r.0@ == join_path_spec(models_path@, id@ + ".onnx"@),
        r.1@ == join_path_spec(models_path@, id@ + ".onnx.tmp"@),
        r.2@ == join_path_spec(models_path@, id@ + ".zip.tmp"@),
{
    let mut a = String::from_str(id);
    push_str(&mut a, ".onnx");
    let mut b = String::from_str(id);
    push_str(&mut b, ".onnx.tmp");
    let mut c = String::from_str(id);
    push_str(&mut c, ".zip.tmp");
    (join_path(models_path, a.as_str()), join_path(models_path, b.as_str()), join_path(models_path, c.as_str()))
}

/// Whether a download URL names a ZIP archive.
pub fn url_is_zip(url: &str) -> (r: bool)
    ensures
        r == ends_with_spec(url@, ".zip"@),
{
    let u = chars_of(url);
    let z = chars_of(".zip");
    ends_with_chars(u.as_slice(), z.as_slice())
}

/// Checks the response headers of a model download: an HTML page is not a
/// model, and a declared length above the limit is refused. On success,
/// whether the download is a ZIP archive (by URL or content type).
pub fn check_download(url: &str, content_type: &str, content_length: u64) -> (r: Result<bool, String>)
    ensures
        match r {
            Ok(z) => !contains_spec(content_type@, "text/html"@) && content_length <= MAX_MODEL_BYTES && z == (
            ends_with_spec(url@, ".zip"@) || contains_spec(content_type@, "zip"@)),
            Err(m) => if contains_spec(content_type@, "text/html"@) {
                m@ == "Unerwarteter Content-Type: "@ + content_type@ + " – kein Modell?"@
            } else {
                content_length > MAX_MODEL_BYTES && m@ == "Modell zu groß: "@ + decimal(
                    (content_length / 1_048_576) as nat,
                ) + " MB (Limit: 500 MB)"@
            },
        },
{
    let ct = chars_of(content_type);
    let html = chars_of("text/html");
    if contains_chars(ct.as_slice(), html.as_slice()) {
        let mut m = String::from_str("Unerwarteter Content-Type: ");
        push_str(&mut m, content_type);
        push_str(&mut m, " – kein Modell?");
        return Err(m);
    }
    let zip = chars_of("zip");
    let is_zip = url_is_zip(url) || contains_chars(ct.as_slice(), zip.as_slice());
    if content_length > 0 && content_length > MAX_MODEL_BYTES {
        let mut m = String::from_str("Modell zu groß: ");
        push_decimal(&mut m, content_length / 1_048_576);
        push_str(&mut m, " MB (Limit: 500 MB)");
        return Err(m);
    }
    Ok(is_zip)
}

/// A download that has grown past the limit is aborted.
pub fn check_download_size(downloaded: u64) -> (r: Result<(), String>)
    ensures
        r is Ok <==> downloaded <= MAX_MODEL_BYTES,
        r matches Err(m) ==> m@ == "Modell überschreitet 500 MB – Download abgebrochen"@,
{
    if downloaded > MAX_MODEL_BYTES {
        Err(String::from_str("Modell überschreitet 500 MB – Download abgebrochen"))
    } else {
        Ok(())
    }
}

/// An installed file below 512 KB is a Git LFS pointer, not a model.
pub fn check_installed_size(size_bytes: u64) -> (r: Result<(), String>)
    ensures
        r is Ok <==> size_bytes >= 524_288,
        r matches Err(m) ==> m@ == "Heruntergeladene Datei zu klein ("@ + decimal((size_bytes / 1024) as nat)
            + " KB) – wahrscheinlich ein LFS-Pointer statt echtem Modell. Bitte direkte Download-URL verwenden."@,
{
    if size_bytes < 524_288 {
        let mut m = String::from_str("Heruntergeladene Datei zu klein (");
        push_decimal(&mut m, size_bytes / 1024);
        push_str(
            &mut m,
            " KB) – wahrscheinlich ein LFS-Pointer statt echtem Modell. Bitte direkte Download-URL verwenden.",
        );
        Err(m)
    } else {
        Ok(())
    }
}

/// The first `n` bytes of `s`, which must end on a character boundary.
pub fn truncate_bytes(s: &str, n: usize) -> (r: String)
    requires
        s.spec_bytes().len() <= n || is_char_boundary(s.spec_bytes(), n as int),
    ensures
        encode_utf8(r@) == s.spec_bytes().subrange(0, if s.spec_bytes().len() <= n {
            s.spec_bytes().len() as int
        } else {
            n as int
        }),
{
    let bytes = s.as_bytes();
    if bytes.len() <= n {
        proof {
            assert(s.spec_bytes().subrange(0, s.spec_bytes().len() as int) =~= s.spec_bytes());
        }
        return String::from_str(s);
    }
    let (left, _right) = s.split_at(n);
    String::from_str(left)
}

/// A setting kept between `lo` and `hi`.
pub fn clamp_setting(v: u64, lo: u64, hi: u64) -> (r: u64)
    requires
        lo <= hi,
    ensures
        r == (if v < lo {
            lo
        } else if v > hi {
            hi
        } else {
            v
        }),
{
    if v < lo {
        lo
    } else if v > hi {
        hi
    } else {
        v
    }
}

} // verus!
