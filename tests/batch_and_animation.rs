use dds_converter::animation::{
    create_webp_animation, encoder_args, is_supported_animation_format, sequence_output_name,
    AnimationError, Assembly, EncoderStatus,
};
use dds_converter::batch::{
    conversion_args, needs_conversion, probe_succeeded, BatchRun, BatchStep, FileOutcome,
};
use dds_converter::frame::Frame;

/// Drives a run to its end; conversions finish in the order they started.
fn drive(total: usize, limit: usize, keep_going: bool, failing: usize) -> (BatchRun, Vec<usize>) {
    let mut run = BatchRun::new(total, limit, keep_going);
    let mut queue = std::collections::VecDeque::new();
    let mut started = Vec::new();
    loop {
        match run.next_step() {
            BatchStep::Start(i) => {
                started.push(i);
                queue.push_back(i);
                assert!(run.in_flight <= limit);
            }
            BatchStep::Wait => {
                let i = queue.pop_front().unwrap();
                let outcome = if i == failing { FileOutcome::Failed } else { FileOutcome::Converted };
                run.complete(i, outcome);
            }
            BatchStep::Finished => break,
        }
    }
    (run, started)
}

#[test]
fn failure_with_continue_on_error_is_counted_and_the_run_completes() {
    let (run, started) = drive(5, 2, true, 2);
    assert_eq!(started, vec![0, 1, 2, 3, 4]);
    assert_eq!((run.converted, run.failed, run.skipped), (4, 1, 0));
    assert_eq!(run.stopped_by, None);
    assert_eq!(run.not_started(), 0);
}

#[test]
fn failure_without_continue_on_error_stops_the_run() {
    let (run, started) = drive(5, 2, false, 2);
    assert_eq!(run.stopped_by, Some(2));
    assert_eq!(started, vec![0, 1, 2, 3]);
    assert_eq!((run.converted, run.failed), (3, 1));
    assert_eq!(run.not_started(), 1);
}

#[test]
fn tally_does_not_depend_on_completion_order() {
    let mut run = BatchRun::new(5, 2, true);
    let mut running: Vec<usize> = Vec::new();
    loop {
        match run.next_step() {
            BatchStep::Start(i) => running.push(i),
            BatchStep::Wait => {
                let i = running.pop().unwrap();
                run.complete(i, if i == 2 { FileOutcome::Failed } else { FileOutcome::Converted });
            }
            BatchStep::Finished => break,
        }
    }
    assert_eq!((run.converted, run.failed, run.skipped), (4, 1, 0));
    assert_eq!(run.not_started(), 0);
}

#[test]
fn skipped_files_are_tallied() {
    let mut run = BatchRun::new(2, 4, false);
    assert_eq!(run.next_step(), BatchStep::Start(0));
    assert_eq!(run.next_step(), BatchStep::Start(1));
    assert_eq!(run.next_step(), BatchStep::Wait);
    run.complete(1, FileOutcome::Skipped);
    run.complete(0, FileOutcome::Converted);
    assert_eq!(run.next_step(), BatchStep::Finished);
    assert_eq!((run.converted, run.skipped), (1, 1));
}

#[test]
fn small_files_are_not_converted() {
    assert!(!needs_conversion(0));
    assert!(!needs_conversion(127));
    assert!(needs_conversion(128));
}

#[test]
fn tool_arguments() {
    assert_eq!(
        conversion_args("png", "out/x", "in/x/t.dds"),
        vec!["-f", "R8G8B8A8_UNORM", "-ft", "png", "-y", "-o", "out/x", "in/x/t.dds"]
    );
    assert_eq!(encoder_args("10", "tmp/frame_%04d.png", "o.webp")[2], "10");
    assert_eq!(encoder_args("10", "tmp/frame_%04d.png", "o.webp").len(), 16);
    assert!(probe_succeeded(Some(1)));
    assert!(probe_succeeded(Some(0)));
    assert!(!probe_succeeded(Some(2)));
    assert!(!probe_succeeded(None));
}

#[test]
fn output_names() {
    assert_eq!(sequence_output_name("anim_001.png", "webp"), "anim.webp");
    assert_eq!(sequence_output_name("frame1.jpg", "webp"), "frame1.webp");
    assert!(is_supported_animation_format("webp"));
    assert!(!is_supported_animation_format("gif"));
}

#[test]
fn empty_frame_list_fails() {
    assert_eq!(
        create_webp_animation(&Vec::new(), EncoderStatus::Unavailable),
        Err(AnimationError::NoFrames)
    );
    assert_eq!(create_webp_animation(&Vec::new(), EncoderStatus::Succeeded), Err(AnimationError::NoFrames));
}

#[test]
fn encoder_success_needs_no_fallback() {
    let f = Frame { width: 1, height: 1, data: vec![1, 2, 3, 4] };
    assert_eq!(create_webp_animation(&vec![f], EncoderStatus::Succeeded), Ok(Assembly::Animated));
}

#[test]
fn unavailable_encoder_falls_back_to_a_still_of_the_first_frame() {
    let first = Frame { width: 3, height: 2, data: vec![250, 10, 10, 200].repeat(6) };
    let second = Frame { width: 3, height: 2, data: vec![0, 0, 250, 255].repeat(6) };
    let r = create_webp_animation(&vec![first.clone(), second], EncoderStatus::Unavailable).unwrap();
    let bytes = match r {
        Assembly::StaticFallback(b) => b,
        Assembly::Animated => panic!("expected the fallback"),
    };
    assert_ne!(bytes, first.data);
    assert_eq!(&bytes[0..4], b"RIFF");
    let decoded = webp::Decoder::new(&bytes).decode().unwrap();
    assert_eq!((decoded.width(), decoded.height()), (3, 2));
    assert!(decoded.is_alpha());
    let px = &decoded[0..4];
    assert!(px[0] > 200 && px[2] < 60);
}

#[test]
fn empty_first_frame_cannot_fall_back() {
    let f = Frame { width: 0, height: 0, data: vec![] };
    assert_eq!(
        create_webp_animation(&vec![f], EncoderStatus::Failed),
        Err(AnimationError::UnencodableFrame)
    );
}

#[test]
fn oversized_first_frame_cannot_fall_back() {
    let f = Frame { width: 16384, height: 1, data: vec![0; 4 * 16384] };
    assert_eq!(
        create_webp_animation(&vec![f], EncoderStatus::Unavailable),
        Err(AnimationError::UnencodableFrame)
    );
}
