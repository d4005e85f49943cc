//! Core data types and tunable constants of the validation pipeline.

use vstd::prelude::*;
use vstd::string::StringExecFns;

verus! {

/// Width of the tensor the detector model consumes, in pixels.
pub const INPUT_WIDTH: u32 = 640;

/// Height of the tensor the detector model consumes, in pixels.
pub const INPUT_HEIGHT: u32 = 640;

/// Fixed-point scale for confidences and normalized model outputs:
/// the real value `v` is stored as the integer `v * CONF_SCALE`.
pub const CONF_SCALE: u32 = 1_000_000;

/// Minimum confidence (scaled by `CONF_SCALE`) for a raw candidate
/// to become a detection: 0.6.
pub const CONF_THRESHOLD: u32 = 600_000;

/// Intersection-over-union merge threshold as the fraction
/// `IOU_THRESHOLD_NUM / IOU_THRESHOLD_DEN`: 0.45.
pub const IOU_THRESHOLD_NUM: i64 = 45;

/// Denominator of the intersection-over-union merge threshold.
pub const IOU_THRESHOLD_DEN: i64 = 100;

/// Default minimum cluster size in box-size units (pixels).
pub const DEFAULT_CLUSTER_SIZE: i64 = 50;

/// Largest image dimension the pipeline accepts, in pixels. The bound
/// keeps every distance, area and scaling computation exactly
/// representable in 64-bit integers.
pub const MAX_DIM: u32 = 1_000_000;

/// An axis-aligned bounding box in pixel corner form:
/// `(x1, y1)` is the top-left corner, `(x2, y2)` the bottom-right one.
#[derive(Clone, Copy, Debug, PartialEq, Eq, Structural)]
pub struct BBox {
    pub x1: i32,
    pub y1: i32,
    pub x2: i32,
    pub y2: i32,
}

/// A box is well formed when its corners are ordered and lie within
/// the accepted coordinate range.
pub open spec fn bbox_wf(b: BBox) -> bool {
    &&& 0 <= b.x1 <= b.x2 <= MAX_DIM
    &&& 0 <= b.y1 <= b.y2 <= MAX_DIM
}

/// One face candidate: a bounding box in original-image pixel
/// coordinates and a confidence scaled by `CONF_SCALE`.
#[derive(Clone, Copy, Debug, PartialEq, Eq, Structural)]
pub struct Detection {
    pub bbox: BBox,
    pub confidence: u32,
}

/// A detection is well formed when its box is and its confidence is a
/// scaled value of at most 1.0.
pub open spec fn detection_wf(d: Detection) -> bool {
    &&& bbox_wf(d.bbox)
    &&& d.confidence <= CONF_SCALE
}

/// The answer of one validation request.
#[derive(Clone, Debug)]
pub struct ValidationResponse {
    pub is_valid: bool,
    pub face_count: usize,
    pub message: String,
}

/// Machine-readable error category of a failed request.
#[derive(Clone, Copy, Debug, PartialEq, Eq, Structural)]
pub enum ErrorCode {
    InvalidContentType,
    FileTooLarge,
    NoFileProvided,
    InvalidImageFormat,
    UnsupportedFileType,
    ProcessingError,
    InternalError,
}

/// The error body of a failed request.
#[derive(Clone, Debug)]
pub struct ErrorResponse {
    pub code: ErrorCode,
    pub message: String,
    pub details: Option<String>,
}

/// Either a successful validation answer or an error body.
#[derive(Clone, Debug)]
pub enum ApiResponse {
    Success(ValidationResponse),
    Error(ErrorResponse),
}

/// Carries an inference-engine error message across layers that only
/// deal in strings.
#[derive(Clone, Debug)]
pub struct OrtErrorWrapper(pub String);

/// What can go wrong while processing one image.
#[derive(Clone, Debug)]
pub enum ProcessingError {
    /// The whole attempt exceeded the processing timeout.
    Timeout,
    /// The image bytes could not be decoded.
    ImageLoadError(String),
    /// The inference engine reported a fault.
    InferenceError(String),
    /// A shape, reshape or buffer error inside the pipeline.
    Internal(String),
}

/// Builds the error arm of an `ApiResponse` from a code, a message and
/// optional details.
pub fn create_error_response(code: ErrorCode, message: &str, details: Option<&str>) -> (r:
    ApiResponse)
    ensures
        r is Error,
        r->Error_0.code == code,
        r->Error_0.message@ == message@,
        r->Error_0.details is Some <==> details is Some,
        details is Some ==> r->Error_0.details->0@ == details->0@,
{
    let owned_details: Option<String> = match details {
        Some(d) => Some(String::from_str(d)),
        None => None,
    };
    ApiResponse::Error(ErrorResponse { code, message: String::from_str(message), details: owned_details })
}

} // verus!
