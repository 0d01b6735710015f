//! Small planning capabilities: each reads a few plain fields of a request
//! (text fields count as missing when empty) and decides a result class,
//! echoing the fields into the plan only when it is planned. Numbers come
//! as whole numbers already read from the request (`None` when a number is
//! missing or not a whole number in range).
use vstd::prelude::*;
use vstd::string::StringSliceAdditionalSpecFns;
use crate::catalog::to_vec;

verus! {

/// The bytes of `s` when the plan goes ahead, else nothing.
pub open spec fn when(planned: bool, s: Seq<u8>) -> Seq<u8> {
    if planned { s } else { Seq::empty() }
}

fn copy_when(planned: bool, s: &[u8]) -> (r: Vec<u8>)
    ensures
        r@ == when(planned, s@),
{
    if planned {
        to_vec(s)
    } else {
        Vec::new()
    }
}

/// A bounded audio calibration plan.
pub struct CalibrationPlan {
    pub connector_id: Vec<u8>,
    pub operation: Vec<u8>,
    pub plan_id: Vec<u8>,
    pub target_level_dbfs: i64,
    pub tolerance_db: i64,
    pub duration_seconds: i64,
    pub idempotency_key: Vec<u8>,
    pub result_class: Vec<u8>,
}

/// The result class of a calibration request: its ids first, then the
/// target level (-60 to 0 dBFS, 999 when missing), the tolerance (1 to 20
/// dB) and the duration (1 to 300 s).
pub open spec fn calibration_class(id: Seq<u8>, key: Seq<u8>, target: Option<i64>, tol: Option<i64>, dur: Option<i64>) -> Seq<u8> {
    let t = match target { Some(v) => v as int, None => 999 };
    let o = match tol { Some(v) => v as int, None => 0 };
    let d = match dur { Some(v) => v as int, None => 0 };
    if id.len() == 0 || key.len() == 0 {
        "invalid_request".spec_bytes()
    } else if !(-60 <= t <= 0) {
        "target_out_of_bounds".spec_bytes()
    } else if !(1 <= o <= 20) {
        "tolerance_out_of_bounds".spec_bytes()
    } else if !(1 <= d <= 300) {
        "duration_out_of_bounds".spec_bytes()
    } else {
        "planned".spec_bytes()
    }
}

/// Plans a calibration: the connector, operation, numbers and key are set
/// only when it is planned (the numbers are zero otherwise); the plan id is
/// always echoed.
pub fn plan_calibration(plan_id: &[u8], idempotency_key: &[u8], target: Option<i64>, tolerance: Option<i64>, duration: Option<i64>) -> (r: CalibrationPlan)
    ensures
        r.result_class@ == calibration_class(plan_id@, idempotency_key@, target, tolerance, duration),
        ({
            let planned = r.result_class@ == "planned".spec_bytes();
            &&& r.connector_id@ == when(planned, "traverse.audio-input".spec_bytes())
            &&& r.operation@ == when(planned, "calibrate".spec_bytes())
            &&& r.plan_id@ == plan_id@
            &&& r.idempotency_key@ == when(planned, idempotency_key@)
            &&& r.target_level_dbfs == (if planned { target->0 } else { 0 })
            &&& r.tolerance_db == (if planned { tolerance->0 } else { 0 })
            &&& r.duration_seconds == (if planned { duration->0 } else { 0 })
        }),
{
    let t: i64 = match target { Some(v) => v, None => 999 };
    let o: i64 = match tolerance { Some(v) => v, None => 0 };
    let d: i64 = match duration { Some(v) => v, None => 0 };
    let class: &[u8] = if plan_id.len() == 0 || idempotency_key.len() == 0 {
        "invalid_request".as_bytes()
    } else if !(-60 <= t && t <= 0) {
        "target_out_of_bounds".as_bytes()
    } else if !(1 <= o && o <= 20) {
        "tolerance_out_of_bounds".as_bytes()
    } else if !(1 <= d && d <= 300) {
        "duration_out_of_bounds".as_bytes()
    } else {
        "planned".as_bytes()
    };
    let planned = plan_id.len() != 0 && idempotency_key.len() != 0 && -60 <= t && t <= 0 && 1 <= o && o <= 20 && 1 <= d
        && d <= 300;
    proof {
        crate::plans::lemma_classes_differ();
    }
    CalibrationPlan {
        connector_id: copy_when(planned, "traverse.audio-input".as_bytes()),
        operation: copy_when(planned, "calibrate".as_bytes()),
        plan_id: to_vec(plan_id),
        target_level_dbfs: if planned { t } else { 0 },
        tolerance_db: if planned { o } else { 0 },
        duration_seconds: if planned { d } else { 0 },
        idempotency_key: copy_when(planned, idempotency_key),
        result_class: to_vec(class),
    }
}

proof fn lemma_classes_differ()
    ensures
        "planned".spec_bytes() != "invalid_request".spec_bytes(),
        "planned".spec_bytes() != "target_out_of_bounds".spec_bytes(),
        "planned".spec_bytes() != "tolerance_out_of_bounds".spec_bytes(),
        "planned".spec_bytes() != "duration_out_of_bounds".spec_bytes(),
        "planned".spec_bytes() != "invalid_window_policy".spec_bytes(),
        "planned".spec_bytes() != "not_due".spec_bytes(),
{
    broadcast use vstd::string::group_string_axioms;
    reveal_strlit("planned");
    assert(vstd::string::is_ascii("planned"));
    reveal_strlit("invalid_request");
    assert(vstd::string::is_ascii("invalid_request"));
    reveal_strlit("target_out_of_bounds");
    assert(vstd::string::is_ascii("target_out_of_bounds"));
    reveal_strlit("tolerance_out_of_bounds");
    assert(vstd::string::is_ascii("tolerance_out_of_bounds"));
    reveal_strlit("duration_out_of_bounds");
    assert(vstd::string::is_ascii("duration_out_of_bounds"));
    reveal_strlit("invalid_window_policy");
    assert(vstd::string::is_ascii("invalid_window_policy"));
    reveal_strlit("not_due");
    assert(vstd::string::is_ascii("not_due"));
    assert("planned".spec_bytes().len() != "invalid_request".spec_bytes().len());
    assert("planned".spec_bytes().len() != "target_out_of_bounds".spec_bytes().len());
    assert("planned".spec_bytes().len() != "tolerance_out_of_bounds".spec_bytes().len());
    assert("planned".spec_bytes().len() != "duration_out_of_bounds".spec_bytes().len());
    assert("planned".spec_bytes().len() != "invalid_window_policy".spec_bytes().len());
    assert("planned".spec_bytes()[0] != "not_due".spec_bytes()[0]);
}

/// A correction of an artifact: the next revision superseding the previous
/// one.
pub struct Revision {
    pub artifact_id: Vec<u8>,
    pub revision_number: i64,
    pub supersedes_revision: i64,
    pub correction_reason: Vec<u8>,
    pub policy_version: Vec<u8>,
}

/// Creates the revision after `previous` (a whole number of at least one)
/// of the artifact `id`; with any field missing every field is empty or
/// zero.
pub fn create_revision(id: &[u8], correction_reason: &[u8], previous: Option<i64>, policy_version: &[u8]) -> (r: Revision)
    requires
        previous matches Some(p) ==> p < i64::MAX,
    ensures
        ({
            let complete = id@.len() > 0 && correction_reason@.len() > 0 && previous is Some && policy_version@.len() > 0;
            &&& r.artifact_id@ == when(complete, id@)
            &&& r.correction_reason@ == when(complete, correction_reason@)
            &&& r.policy_version@ == when(complete, policy_version@)
            &&& r.revision_number == (if complete { previous->0 + 1 } else { 0 })
            &&& r.supersedes_revision == (if complete { previous->0 } else { 0 })
        }),
{
    match previous {
        Some(p) => {
            let complete = id.len() > 0 && correction_reason.len() > 0 && policy_version.len() > 0;
            Revision {
                artifact_id: copy_when(complete, id),
                revision_number: if complete { p + 1 } else { 0 },
                supersedes_revision: if complete { p } else { 0 },
                correction_reason: copy_when(complete, correction_reason),
                policy_version: copy_when(complete, policy_version),
            }
        },
        None => Revision {
            artifact_id: Vec::new(),
            revision_number: 0,
            supersedes_revision: 0,
            correction_reason: Vec::new(),
            policy_version: Vec::new(),
        },
    }
}

/// A plan to hand a job to the scheduler.
pub struct TriggerPlan {
    pub connector_id: Vec<u8>,
    pub operation: Vec<u8>,
    pub job_kind: Vec<u8>,
    pub calendar_policy_ref: Vec<u8>,
    pub logical_deadline: Vec<u8>,
    pub idempotency_key: Vec<u8>,
    pub result_class: Vec<u8>,
}

/// The result class of a schedule trigger: invalid without all five text
/// fields or without a due flag, else planned when due and not due when not.
pub open spec fn trigger_class(
    trigger_id: Seq<u8>,
    job_kind: Seq<u8>,
    calendar_policy_ref: Seq<u8>,
    logical_deadline: Seq<u8>,
    idempotency_key: Seq<u8>,
    is_due: Option<bool>,
) -> Seq<u8> {
    if trigger_id.len() == 0 || job_kind.len() == 0 || calendar_policy_ref.len() == 0 || logical_deadline.len() == 0
        || idempotency_key.len() == 0 || is_due is None {
        "invalid_request".spec_bytes()
    } else if is_due == Some(false) {
        "not_due".spec_bytes()
    } else {
        "planned".spec_bytes()
    }
}

/// Evaluates a schedule trigger; the plan carries the scheduler call only
/// when the trigger is valid and due.
pub fn evaluate_schedule_trigger(
    trigger_id: &[u8],
    job_kind: &[u8],
    calendar_policy_ref: &[u8],
    logical_deadline: &[u8],
    idempotency_key: &[u8],
    is_due: Option<bool>,
) -> (r: TriggerPlan)
    ensures
        r.result_class@ == trigger_class(trigger_id@, job_kind@, calendar_policy_ref@, logical_deadline@, idempotency_key@, is_due),
        ({
            let planned = r.result_class@ == "planned".spec_bytes();
            &&& r.connector_id@ == when(planned, "traverse.scheduler".spec_bytes())
            &&& r.operation@ == when(planned, "schedule_invocation".spec_bytes())
            &&& r.job_kind@ == when(planned, job_kind@)
            &&& r.calendar_policy_ref@ == when(planned, calendar_policy_ref@)
            &&& r.logical_deadline@ == when(planned, logical_deadline@)
            &&& r.idempotency_key@ == when(planned, idempotency_key@)
        }),
{
    proof {
        lemma_classes_differ();
    }
    let valid = trigger_id.len() > 0 && job_kind.len() > 0 && calendar_policy_ref.len() > 0 && logical_deadline.len() > 0
        && idempotency_key.len() > 0 && is_due.is_some();
    let due = match is_due {
        Some(b) => b,
        None => false,
    };
    let planned = valid && due;
    let class: &[u8] = if !valid {
        "invalid_request".as_bytes()
    } else if !due {
        "not_due".as_bytes()
    } else {
        "planned".as_bytes()
    };
    TriggerPlan {
        connector_id: copy_when(planned, "traverse.scheduler".as_bytes()),
        operation: copy_when(planned, "schedule_invocation".as_bytes()),
        job_kind: copy_when(planned, job_kind),
        calendar_policy_ref: copy_when(planned, calendar_policy_ref),
        logical_deadline: copy_when(planned, logical_deadline),
        idempotency_key: copy_when(planned, idempotency_key),
        result_class: to_vec(class),
    }
}

/// A plan to run a model on an input through the local model runtime.
pub struct InferencePlan {
    pub connector_id: Vec<u8>,
    pub operation: Vec<u8>,
    pub input_artifact_ref: Vec<u8>,
    pub model_artifact_ref: Vec<u8>,
    pub inference_profile_ref: Vec<u8>,
    pub idempotency_key: Vec<u8>,
    pub result_class: Vec<u8>,
}

/// Prepares an inference request: planned exactly when all four references
/// are there, and then it carries them.
pub fn prepare_inference_request(
    input_artifact_ref: &[u8],
    model_artifact_ref: &[u8],
    inference_profile_ref: &[u8],
    idempotency_key: &[u8],
) -> (r: InferencePlan)
    ensures
        ({
            let planned = input_artifact_ref@.len() > 0 && model_artifact_ref@.len() > 0 && inference_profile_ref@.len() > 0
                && idempotency_key@.len() > 0;
            &&& r.result_class@ == (if planned { "planned".spec_bytes() } else { "invalid_request".spec_bytes() })
            &&& r.connector_id@ == when(planned, "traverse.local-model-runtime".spec_bytes())
            &&& r.operation@ == when(planned, "infer".spec_bytes())
            &&& r.input_artifact_ref@ == when(planned, input_artifact_ref@)
            &&& r.model_artifact_ref@ == when(planned, model_artifact_ref@)
            &&& r.inference_profile_ref@ == when(planned, inference_profile_ref@)
            &&& r.idempotency_key@ == when(planned, idempotency_key@)
        }),
{
    let planned = input_artifact_ref.len() > 0 && model_artifact_ref.len() > 0 && inference_profile_ref.len() > 0
        && idempotency_key.len() > 0;
    InferencePlan {
        connector_id: copy_when(planned, "traverse.local-model-runtime".as_bytes()),
        operation: copy_when(planned, "infer".as_bytes()),
        input_artifact_ref: copy_when(planned, input_artifact_ref),
        model_artifact_ref: copy_when(planned, model_artifact_ref),
        inference_profile_ref: copy_when(planned, inference_profile_ref),
        idempotency_key: copy_when(planned, idempotency_key),
        result_class: to_vec(if planned { "planned".as_bytes() } else { "invalid_request".as_bytes() }),
    }
}

/// A plan of overlapping analysis windows over an artifact.
pub struct WindowPlan {
    pub artifact_ref: Vec<u8>,
    pub window_millis: i64,
    pub hop_millis: i64,
    pub window_count: i64,
    pub policy_version: Vec<u8>,
    pub result_class: Vec<u8>,
}

/// The number of windows of `window` ms, `hop` ms apart, over `duration`
/// ms: one when the duration fits one window, else one more for every
/// whole hop past the first window.
pub open spec fn window_count_spec(duration: int, window: int, hop: int) -> int {
    if duration <= window { 1 } else { 1 + (duration - window) / hop }
}

/// The result class of a window plan (durations and sizes are positive
/// whole numbers when present).
pub open spec fn window_class(artifact_ref: Seq<u8>, duration: Option<i64>, policy_version: Seq<u8>, window: Option<i64>, hop: Option<i64>) -> Seq<u8> {
    if artifact_ref.len() == 0 || duration is None || policy_version.len() == 0 {
        "invalid_request".spec_bytes()
    } else if window is None || hop is None || hop->0 > window->0 {
        "invalid_window_policy".spec_bytes()
    } else {
        "planned".spec_bytes()
    }
}

/// Plans the analysis windows over an artifact; the artifact reference and
/// policy version are always echoed, the numbers are set only when planned.
pub fn create_window_plan(artifact_ref: &[u8], duration: Option<i64>, policy_version: &[u8], window: Option<i64>, hop: Option<i64>) -> (r: WindowPlan)
    requires
        duration matches Some(d) ==> d >= 1,
        window matches Some(w) ==> w >= 1,
        hop matches Some(h) ==> h >= 1,
    ensures
        r.result_class@ == window_class(artifact_ref@, duration, policy_version@, window, hop),
        r.artifact_ref@ == artifact_ref@,
        r.policy_version@ == policy_version@,
        ({
            let planned = r.result_class@ == "planned".spec_bytes();
            &&& r.window_millis == (if planned { window->0 } else { 0 })
            &&& r.hop_millis == (if planned { hop->0 } else { 0 })
            &&& r.window_count == (if planned { window_count_spec(duration->0 as int, window->0 as int, hop->0 as int) } else { 0 })
        }),
{
    proof {
        lemma_classes_differ();
    }
    let (class, w, h, count): (&[u8], i64, i64, i64) = if artifact_ref.len() == 0 || duration.is_none() || policy_version.len() == 0 {
        ("invalid_request".as_bytes(), 0, 0, 0)
    } else {
        match (window, hop) {
            (Some(w), Some(h)) => {
                if h > w {
                    ("invalid_window_policy".as_bytes(), 0, 0, 0)
                } else {
                    let d = match duration { Some(d) => d, None => 1 };
                    let count = if d <= w { 1 } else { 1 + (d - w) / h };
                    ("planned".as_bytes(), w, h, count)
                }
            },
            _ => ("invalid_window_policy".as_bytes(), 0, 0, 0),
        }
    };
    WindowPlan {
        artifact_ref: to_vec(artifact_ref),
        window_millis: w,
        hop_millis: h,
        window_count: count,
        policy_version: to_vec(policy_version),
        result_class: to_vec(class),
    }
}

/// Whether `encoding` is the PCM encoding of samples of `bit_depth` bits.
pub open spec fn encoding_fits(encoding: Seq<u8>, bit_depth: int) -> bool {
    ||| encoding == "pcm_s16le".spec_bytes() && bit_depth == 16
    ||| encoding == "pcm_s24le".spec_bytes() && bit_depth == 24
    ||| encoding == "pcm_f32le".spec_bytes() && bit_depth == 32
}

/// Whether `encoding` is the PCM encoding of samples of `bit_depth` bits.
pub fn compatible_encoding(encoding: &[u8], bit_depth: i64) -> (r: bool)
    ensures
        r == encoding_fits(encoding@, bit_depth as int),
{
    (crate::scan::bytes_eq(encoding, "pcm_s16le".as_bytes()) && bit_depth == 16) || (crate::scan::bytes_eq(
        encoding,
        "pcm_s24le".as_bytes(),
    ) && bit_depth == 24) || (crate::scan::bytes_eq(encoding, "pcm_f32le".as_bytes()) && bit_depth == 32)
}

/// The reason code of an audio source profile under a capture policy (all
/// numbers positive whole numbers when present): the policy first, then
/// at most two channels, a rate of 8 to 192 kHz, a depth of 16, 24 or 32
/// bits with its PCM encoding, and a requested segment within the maximum.
pub open spec fn profile_reason(
    policy_version: Seq<u8>,
    maximum: Option<i64>,
    requested: Option<i64>,
    channels: Option<i64>,
    rate: Option<i64>,
    depth: Option<i64>,
    encoding: Seq<u8>,
) -> Seq<u8> {
    if policy_version.len() == 0 || maximum is None || requested is None {
        "invalid_request".spec_bytes()
    } else if channels is None || channels->0 > 2 {
        "unsupported_channel_count".spec_bytes()
    } else if rate is None || !(8000 <= rate->0 <= 192000) {
        "unsupported_sample_rate".spec_bytes()
    } else if !(depth is Some && (depth->0 == 16 || depth->0 == 24 || depth->0 == 32)) {
        "unsupported_bit_depth".spec_bytes()
    } else if encoding.len() == 0 || !encoding_fits(encoding, depth->0 as int) {
        "unsupported_encoding".spec_bytes()
    } else if requested->0 > maximum->0 {
        "segment_duration_exceeds_policy".spec_bytes()
    } else {
        "source_profile_compatible".spec_bytes()
    }
}

/// Validates an audio source profile against a capture policy: the reason
/// code, valid exactly when the profile is compatible.
pub fn validate_source_profile(
    policy_version: &[u8],
    maximum: Option<i64>,
    requested: Option<i64>,
    channels: Option<i64>,
    rate: Option<i64>,
    depth: Option<i64>,
    encoding: &[u8],
) -> (r: (bool, Vec<u8>))
    ensures
        r.1@ == profile_reason(policy_version@, maximum, requested, channels, rate, depth, encoding@),
        r.0 == (r.1@ == "source_profile_compatible".spec_bytes()),
{
    proof {
        lemma_profile_reasons_differ();
    }
    let reason: &[u8] = if policy_version.len() == 0 || maximum.is_none() || requested.is_none() {
        "invalid_request".as_bytes()
    } else if match channels { Some(c) => c > 2, None => true } {
        "unsupported_channel_count".as_bytes()
    } else if match rate { Some(v) => !(8000 <= v && v <= 192000), None => true } {
        "unsupported_sample_rate".as_bytes()
    } else if !(match depth { Some(d) => d == 16 || d == 24 || d == 32, None => false }) {
        "unsupported_bit_depth".as_bytes()
    } else if encoding.len() == 0 || !compatible_encoding(encoding, match depth { Some(d) => d, None => 0 }) {
        "unsupported_encoding".as_bytes()
    } else if match (requested, maximum) { (Some(q), Some(m)) => q > m, _ => false } {
        "segment_duration_exceeds_policy".as_bytes()
    } else {
        "source_profile_compatible".as_bytes()
    };
    let valid = crate::scan::bytes_eq(reason, "source_profile_compatible".as_bytes());
    (valid, to_vec(reason))
}

proof fn lemma_profile_reasons_differ()
    ensures
        "source_profile_compatible".spec_bytes() != "invalid_request".spec_bytes(),
        "source_profile_compatible".spec_bytes() != "unsupported_channel_count".spec_bytes(),
        "source_profile_compatible".spec_bytes() != "unsupported_sample_rate".spec_bytes(),
        "source_profile_compatible".spec_bytes() != "unsupported_bit_depth".spec_bytes(),
        "source_profile_compatible".spec_bytes() != "unsupported_encoding".spec_bytes(),
        "source_profile_compatible".spec_bytes() != "segment_duration_exceeds_policy".spec_bytes(),
{
    broadcast use vstd::string::group_string_axioms;
    reveal_strlit("source_profile_compatible");
    assert(vstd::string::is_ascii("source_profile_compatible"));
    reveal_strlit("invalid_request");
    assert(vstd::string::is_ascii("invalid_request"));
    reveal_strlit("unsupported_channel_count");
    assert(vstd::string::is_ascii("unsupported_channel_count"));
    reveal_strlit("unsupported_sample_rate");
    assert(vstd::string::is_ascii("unsupported_sample_rate"));
    reveal_strlit("unsupported_bit_depth");
    assert(vstd::string::is_ascii("unsupported_bit_depth"));
    reveal_strlit("unsupported_encoding");
    assert(vstd::string::is_ascii("unsupported_encoding"));
    reveal_strlit("segment_duration_exceeds_policy");
    assert(vstd::string::is_ascii("segment_duration_exceeds_policy"));
    assert("source_profile_compatible".spec_bytes().len() != "invalid_request".spec_bytes().len());
    assert("source_profile_compatible".spec_bytes()[0] != "unsupported_channel_count".spec_bytes()[0]);
    assert("source_profile_compatible".spec_bytes().len() != "unsupported_sample_rate".spec_bytes().len());
    assert("source_profile_compatible".spec_bytes().len() != "unsupported_bit_depth".spec_bytes().len());
    assert("source_profile_compatible".spec_bytes().len() != "unsupported_encoding".spec_bytes().len());
    assert("source_profile_compatible".spec_bytes().len() != "segment_duration_exceeds_policy".spec_bytes().len());
}

/// Every character of `cs` is white space (so the trimmed note is empty).
pub open spec fn all_space(cs: Seq<char>) -> bool {
    forall|k: int| 0 <= k < cs.len() ==> crate::validators::is_unicode_ws(#[trigger] cs[k])
}

/// The issues of a note: empty or white space only, and longer than 2000
/// characters (with its length).
pub open spec fn note_issues(cs: Seq<char>) -> Seq<Seq<u8>> {
    (if all_space(cs) { seq!["note is empty or contains only whitespace".spec_bytes()] } else { Seq::empty() }) + (
    if cs.len() > 2000 {
        seq![
            "note exceeds 2000 characters (actual: ".spec_bytes() + crate::emit::decimal(cs.len()) + ")".spec_bytes(),
        ]
    } else {
        Seq::empty()
    })
}

/// The byte strings held by a vector of byte strings.
pub open spec fn texts(v: Seq<Vec<u8>>) -> Seq<Seq<u8>> {
    v.map_values(|x: Vec<u8>| x@)
}

/// Validates a note: valid exactly when it has no issue.
pub fn validate_note(note: &str) -> (r: (bool, Vec<Vec<u8>>))
    ensures
        texts(r.1@) == note_issues(note@),
        r.0 == (note_issues(note@).len() == 0),
{
    let cs = crate::validators::chars_of(note);
    let mut blank = true;
    let mut k: usize = 0;
    while k < cs.len()
        invariant
            k <= cs@.len(),
            cs@ == note@,
            blank == (forall|j: int| 0 <= j < k ==> crate::validators::is_unicode_ws(#[trigger] cs@[j])),
        decreases cs@.len() - k,
    {
        if !crate::validators::is_whitespace(cs[k]) {
            blank = false;
        }
        k = k + 1;
    }
    let mut issues: Vec<Vec<u8>> = Vec::new();
    if blank {
        issues.push(to_vec("note is empty or contains only whitespace".as_bytes()));
    }
    if cs.len() > 2000 {
        let mut m: Vec<u8> = to_vec("note exceeds 2000 characters (actual: ".as_bytes());
        let digits = crate::emit::decimal_digits(cs.len() as u64);
        crate::catalog::append(&mut m, digits.as_slice());
        crate::catalog::append(&mut m, ")".as_bytes());
        issues.push(m);
    }
    assert(texts(issues@) =~= note_issues(note@));
    (issues.len() == 0, issues)
}

} // verus!
