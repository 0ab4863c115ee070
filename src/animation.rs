//! Assembling frames into an animation, with a still image as the fallback
//! when the animation encoder cannot be used.
use vstd::prelude::*;
use crate::frame::{drop_trailing_blank, is_extraction, mostly_blank, Frame};
use crate::sprite::{sheet_of, split_lines, SpriteError, SpriteSheet};
use crate::text::{all_digits, rfind, file_stem, lemma_rfind_bounds, is_all_digits, rfind_char, stem_of};

verus! {

/// Quality (0 to 100) of the lossy encodings.
pub const WEBP_QUALITY: u8 = 85;

/// Largest width or height that a WebP image can have.
pub const WEBP_MAX_DIMENSION: u32 = 16383;

/// The bytes of the lossy WebP encoding of an RGBA buffer.
pub uninterp spec fn webp_lossy(rgba: Seq<u8>, width: u32, height: u32, quality: u8) -> Seq<u8>;

/// Whether libwebp refuses to encode the buffer (for instance when the
/// picture's mode data overflows its first partition).
pub uninterp spec fn webp_lossy_refused(rgba: Seq<u8>, width: u32, height: u32, quality: u8) -> bool;

/// Relies on `webp::Encoder::from_rgba` and `Encoder::encode_simple` (lossy):
/// the WebP encoding of a `width` x `height` RGBA buffer at `quality`, or `None`
/// when libwebp reports a failure. The buffer must hold the whole picture, which
/// libwebp reads without checking its length.
#[verifier::external_body]
fn encode_webp(rgba: &Vec<u8>, width: u32, height: u32, quality: u8) -> (r: Option<Vec<u8>>)
    requires
        rgba.len() == 4 * (width as nat) * (height as nat),
        1 <= width <= WEBP_MAX_DIMENSION,
        1 <= height <= WEBP_MAX_DIMENSION,
        quality <= 100,
    ensures
        r is None == webp_lossy_refused(rgba@, width, height, quality),
        r matches Some(b) ==> b@ == webp_lossy(rgba@, width, height, quality),
{
    let encoder = webp::Encoder::from_rgba(rgba, width, height);
    match encoder.encode_simple(false, quality.into()) {
        Ok(m) => Some(m.to_vec()),
        Err(_) => None,
    }
}

/// How the external animation encoder ended.
#[derive(Debug, Clone, Copy, PartialEq, Eq)]
pub enum EncoderStatus {
    Succeeded,
    Failed,
    Unavailable,
}

/// What the assembly produced.
#[derive(Debug, PartialEq, Eq)]
pub enum Assembly {
    /// The encoder wrote the animation.
    Animated,
    /// The encoder could not be used: these are the bytes of a still WebP
    /// image of the first frame, to be written in its place.
    StaticFallback(Vec<u8>),
}

#[derive(Debug, Clone, Copy, PartialEq, Eq)]
pub enum AnimationError {
    /// There are no frames to assemble.
    NoFrames,
    /// The first frame is too large, or empty, for a still WebP image, or
    /// libwebp refused to encode it.
    UnencodableFrame,
}

pub open spec fn is_encodable(f: Frame) -> bool {
    1 <= f.width <= WEBP_MAX_DIMENSION && 1 <= f.height <= WEBP_MAX_DIMENSION
}

/// Completes the assembly of `frames` once the animation encoder has run on
/// them: nothing more when it succeeded; else the still image of the first
/// frame. An empty frame list always fails.
pub fn create_webp_animation(frames: &Vec<Frame>, encoder: EncoderStatus) -> (r: Result<
    Assembly,
    AnimationError,
>)
    requires
        forall|j: int| 0 <= j < frames.len() ==> (#[trigger] frames@[j]).wf(),
    ensures
        frames.len() == 0 ==> r == Err::<Assembly, AnimationError>(AnimationError::NoFrames),
        frames.len() > 0 && encoder == EncoderStatus::Succeeded ==> r == Ok::<
            Assembly,
            AnimationError,
        >(Assembly::Animated),
        frames.len() > 0 && encoder != EncoderStatus::Succeeded ==> if is_encodable(frames@[0])
            && !webp_lossy_refused(frames@[0].data@, frames@[0].width, frames@[0].height, WEBP_QUALITY) {
            &&& r matches Ok(Assembly::StaticFallback(bytes))
            &&& bytes@ == webp_lossy(frames@[0].data@, frames@[0].width, frames@[0].height, WEBP_QUALITY)
        } else {
            r == Err::<Assembly, AnimationError>(AnimationError::UnencodableFrame)
        },
{
    if frames.len() == 0 {
        return Err(AnimationError::NoFrames);
    }
    match encoder {
        EncoderStatus::Succeeded => Ok(Assembly::Animated),
        _ => {
            let first = &frames[0];
            assert(first.wf());
            if first.width < 1 || first.width > WEBP_MAX_DIMENSION || first.height < 1 || first.height
                > WEBP_MAX_DIMENSION {
                return Err(AnimationError::UnencodableFrame);
            }
            match encode_webp(&first.data, first.width, first.height, WEBP_QUALITY) {
                Some(bytes) => Ok(Assembly::StaticFallback(bytes)),
                None => Err(AnimationError::UnencodableFrame),
            }
        },
    }
}

/// The arguments that have the animation encoder read the numbered frames
/// matched by `pattern` at `frame_rate` frames a second and write a looping,
/// lossy WebP with alpha to `output`.
pub fn encoder_args(frame_rate: &str, pattern: &str, output: &str) -> (r: Vec<String>)
    ensures
        r.deep_view() == seq![
            "-y"@,
            "-framerate"@,
            frame_rate@,
            "-i"@,
            pattern@,
            "-c:v"@,
            "libwebp"@,
            "-lossless"@,
            "0"@,
            "-compression_level"@,
            "6"@,
            "-q:v"@,
            "85"@,
            "-loop"@,
            "0"@,
            output@,
        ],
{
    let r = vec![
        "-y".to_owned(),
        "-framerate".to_owned(),
        frame_rate.to_owned(),
        "-i".to_owned(),
        pattern.to_owned(),
        "-c:v".to_owned(),
        "libwebp".to_owned(),
        "-lossless".to_owned(),
        "0".to_owned(),
        "-compression_level".to_owned(),
        "6".to_owned(),
        "-q:v".to_owned(),
        "85".to_owned(),
        "-loop".to_owned(),
        "0".to_owned(),
        output.to_owned(),
    ];
    assert(r.deep_view() =~= seq![
        "-y"@,
        "-framerate"@,
        frame_rate@,
        "-i"@,
        pattern@,
        "-c:v"@,
        "libwebp"@,
        "-lossless"@,
        "0"@,
        "-compression_level"@,
        "6"@,
        "-q:v"@,
        "85"@,
        "-loop"@,
        "0"@,
        output@,
    ]);
    r
}

/// Whether the animation format is one this tool writes: only WebP.
pub fn is_supported_animation_format(format: &str) -> (r: bool)
    ensures
        r == (format@ == "webp"@),
{
    proof {
        reveal_strlit("webp");
    }
    let n = format.unicode_len();
    if n != 4 {
        return false;
    }
    let ok = format.get_char(0) == 'w' && format.get_char(1) == 'e' && format.get_char(2) == 'b'
        && format.get_char(3) == 'p';
    assert(ok ==> format@ =~= "webp"@);
    ok
}

/// A stem less a final `_` and the digits after it, when it ends so.
pub open spec fn without_frame_number(stem: Seq<char>) -> Seq<char> {
    let u = rfind(stem, '_');
    if u >= 0 && all_digits(stem.subrange(u + 1, stem.len() as int)) {
        stem.subrange(0, u)
    } else {
        stem
    }
}

/// The name of the animation made from a sequence whose first file is
/// `first`: its stem without the frame number, with extension `format`.
pub fn sequence_output_name(first: &str, format: &str) -> (r: String)
    ensures
        r@ == without_frame_number(file_stem(first@)) + seq!['.'] + format@,
{
    let stem = stem_of(first);
    let s = stem.as_str();
    let n = s.unicode_len();
    proof {
        lemma_rfind_bounds(s@, '_');
    }
    let mut base = match rfind_char(s, '_') {
        Some(u) => if is_all_digits(s.substring_char(u + 1, n)) {
            s.substring_char(0, u).to_owned()
        } else {
            s.to_owned()
        },
        None => s.to_owned(),
    };
    base.append(".");
    base.append(format);
    proof {
        reveal_strlit(".");
    }
    base
}

/// The frames of a sprite-sheet animation: the cells that `descriptor` lists,
/// cut out of `texture`, less a trailing blank frame where there are exactly 24.
pub fn sprite_animation_frames(descriptor: &str, texture: &Frame) -> (r: Result<
    Vec<Frame>,
    SpriteError,
>)
    requires
        texture.wf(),
    ensures
        match sheet_of(split_lines(descriptor@)) {
            Err(line) => r == Err::<Vec<Frame>, SpriteError>(
                SpriteError::MalformedCoordinate { line_index: line as usize },
            ),
            Ok(cells) => r matches Ok(frames) && exists|cut: Seq<Frame>|
                #[trigger] is_extraction(cut, cells, *texture) && frames@ == if cut.len() == 24
                    && mostly_blank(cut[23]) {
                    cut.drop_last()
                } else {
                    cut
                },
        },
{
    let sheet = match SpriteSheet::from_xml_content(descriptor) {
        Ok(s) => s,
        Err(e) => {
            return Err(e);
        },
    };
    let mut frames = sheet.extract_frames(texture);
    let ghost cut = frames@;
    assert(is_extraction(cut, sheet.cells_view(), *texture));
    drop_trailing_blank(&mut frames);
    Ok(frames)
}

} // verus!
