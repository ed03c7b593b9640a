use lib::demux::{DemuxError, Input, Mp4FileDemuxer, RequiredInput};
use lib::ErrorKind;

#[test]
fn test_required_input_is_satisfied_by_basic() {
    let required = RequiredInput::new(100, Some(50));
    let input = Input { position: 100, data: &[0u8; 50] };
    assert!(required.is_satisfied_by(input));
}

#[test]
fn test_required_input_is_satisfied_by_with_extra_data() {
    let required = RequiredInput::new(100, Some(50));
    let input = Input { position: 100, data: &[0u8; 100] };
    assert!(required.is_satisfied_by(input));
}

#[test]
fn test_required_input_is_satisfied_by_with_earlier_position() {
    let required = RequiredInput::new(100, Some(50));
    let input = Input { position: 50, data: &[0u8; 100] };
    assert!(required.is_satisfied_by(input));
}

#[test]
fn test_required_input_is_satisfied_by_position_too_late() {
    let required = RequiredInput::new(100, Some(50));
    let input = Input { position: 150, data: &[0u8; 50] };
    assert!(!required.is_satisfied_by(input));
}

#[test]
fn test_required_input_is_satisfied_by_insufficient_data() {
    let required = RequiredInput::new(100, Some(50));
    let input = Input { position: 100, data: &[0u8; 30] };
    assert!(!required.is_satisfied_by(input));
}

#[test]
fn test_required_input_is_satisfied_by_size_none() {
    let required = RequiredInput::new(100, None);
    let input = Input { position: 100, data: &[0u8; 50] };
    assert!(required.is_satisfied_by(input));
}

#[test]
fn test_required_input_is_satisfied_by_critical_boundary_case() {
    let required = RequiredInput::new(100, Some(50));
    let input = Input { position: 0, data: &[0u8; 100] };
    assert!(!required.is_satisfied_by(input));
}

#[test]
fn test_required_input_is_satisfied_by_exact_boundary() {
    let required = RequiredInput::new(100, Some(1));
    let input = Input { position: 0, data: &[0u8; 100] };
    assert!(!required.is_satisfied_by(input));
}

#[test]
fn test_required_input_is_satisfied_by_with_size_none_and_partial_data() {
    let required = RequiredInput::new(50, None);
    let input = Input { position: 0, data: &[0u8; 100] };
    assert!(required.is_satisfied_by(input));
}

#[test]
fn test_required_input_is_satisfied_by_size_zero() {
    let required = RequiredInput::new(100, Some(0));
    let input = Input { position: 100, data: &[0u8; 0] };
    assert!(required.is_satisfied_by(input));
}

#[test]
fn test_required_input_is_satisfied_by_large_position() {
    let required = RequiredInput::new(1_000_000, Some(1000));
    let input = Input { position: 1_000_000, data: &[0u8; 2000] };
    assert!(required.is_satisfied_by(input));
}

#[test]
fn test_required_input_is_satisfied_by_with_prior_data() {
    let required = RequiredInput::new(100, Some(50));
    let input = Input { position: 50, data: &[0u8; 40] };
    assert!(!required.is_satisfied_by(input));
}

#[test]
fn test_required_input_is_satisfied_by_with_prior_data_sufficient() {
    let required = RequiredInput::new(100, Some(50));
    let input = Input { position: 50, data: &[0u8; 110] };
    assert!(required.is_satisfied_by(input));
}

#[test]
fn test_handle_input_with_empty_data() {
    let empty_input = Input { position: 0, data: &[] };
    let mut demuxer = Mp4FileDemuxer::new();
    demuxer.handle_input(empty_input);
    let Err(DemuxError::DecodeError(err)) = demuxer.tracks() else {
        panic!();
    };
    assert_eq!(err.kind, ErrorKind::InvalidInput);
}

#[test]
fn required_input_to_input_keeps_position() {
    let required = RequiredInput::new(7, Some(3));
    let data = [1u8, 2, 3];
    let input = required.to_input(&data);
    assert_eq!(input.position, 7);
    assert_eq!(input.data, &data[..]);
    assert!(required.is_satisfied_by(input));
}

#[test]
fn required_input_size_overflow_is_not_satisfied() {
    let required = RequiredInput::new(10, Some(usize::MAX));
    let input = Input { position: 0, data: &[0u8; 20] };
    assert!(!required.is_satisfied_by(input));
}

#[test]
fn new_demuxer_asks_for_the_ftyp_header() {
    let demuxer = Mp4FileDemuxer::new();
    assert_eq!(demuxer.required_input(), Some(RequiredInput::new(0, Some(32))));
}

#[test]
fn tracks_before_input_asks_for_input() {
    let mut demuxer = Mp4FileDemuxer::new();
    match demuxer.tracks() {
        Err(DemuxError::InputRequired(r)) => {
            assert_eq!(r.position, 0);
            assert_eq!(r.size, Some(32));
        }
        _ => panic!(),
    }
}

#[test]
fn next_sample_before_input_asks_for_input() {
    let mut demuxer = Mp4FileDemuxer::new();
    assert!(matches!(demuxer.next_sample(), Err(DemuxError::InputRequired(_))));
    assert!(matches!(demuxer.prev_sample(), Err(DemuxError::InputRequired(_))));
}

#[test]
fn wrong_first_box_is_an_error() {
    let mut data = vec![0u8; 40];
    data[3] = 40;
    data[4..8].copy_from_slice(b"moov");
    let mut demuxer = Mp4FileDemuxer::new();
    demuxer.handle_input(Input { position: 0, data: &data });
    match demuxer.tracks() {
        Err(DemuxError::DecodeError(e)) => assert_eq!(e.kind, ErrorKind::InvalidData),
        _ => panic!(),
    }
}
