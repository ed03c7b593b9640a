use lib::demux::{Input, Mp4FileDemuxer, RequiredInput};

const TEST_MP4_H264: &[u8] = &[
    0x00, 0x00, 0x00, 0x18, b'f', b't', b'y', b'p', b'i', b's', b'o', b'm', 0x00, 0x00, 0x00, 0x00,
    b'i', b's', b'o', b'm', b'i', b's', b'o', b'2', 0x00, 0x00, 0x00, 0x08, b'm', b'o', b'o', b'v',
    0x00, 0x00, 0x00, 0x10, b'm', b'd', b'a', b't', 0x00, 0x00, 0x00, 0x01, 0x02, 0x03, 0x04, 0x05,
];

// Feeds the whole of `data` whenever the demuxer asks for input; the same request made three
// times in a row counts as a loop.
fn demux_with_loop_detection(data: &[u8], max_iterations: usize) -> Result<(), String> {
    let mut demuxer = Mp4FileDemuxer::new();
    let mut last_required: Option<RequiredInput> = None;
    let mut same_request_count = 0;
    const MAX_SAME_REQUESTS: usize = 3;

    for iteration in 0..max_iterations {
        let required = demuxer.required_input();

        if let Some(req) = required {
            if last_required == Some(req) {
                same_request_count += 1;
                if same_request_count >= MAX_SAME_REQUESTS {
                    return Err(format!(
                        "loop: the same request {} times (position={}, size={:?}) at iteration {}",
                        same_request_count, req.position, req.size, iteration
                    ));
                }
            } else {
                same_request_count = 0;
                last_required = Some(req);
            }

            let input = Input { position: 0, data };
            demuxer.handle_input(input);
        } else {
            break;
        }
    }

    match demuxer.tracks() {
        Ok(_) => {
            let mut sample_iterations = 0;
            loop {
                match demuxer.next_sample() {
                    Ok(Some(_)) => {
                        sample_iterations += 1;
                        if sample_iterations > max_iterations {
                            return Err("too many samples read".to_string());
                        }
                    }
                    Ok(None) => break,
                    Err(_) => break,
                }
            }
            Ok(())
        }
        Err(_) => Ok(()),
    }
}

#[test]
fn empty_data_no_panic() {
    let result = demux_with_loop_detection(&[], 100);
    assert!(result.is_ok());
}

#[test]
fn minimal_data_no_panic() {
    let result = demux_with_loop_detection(&[0; 8], 100);
    assert!(result.is_ok());
}

#[test]
fn ftyp_only_no_infinite_loop() {
    let ftyp_only = &TEST_MP4_H264[..32.min(TEST_MP4_H264.len())];
    let result = demux_with_loop_detection(ftyp_only, 100);
    assert!(result.is_ok());
}

#[test]
fn all_ff_no_infinite_loop() {
    let data = vec![0xFF; 256];
    let result = demux_with_loop_detection(&data, 100);
    assert!(result.is_ok());
}

#[test]
fn all_zero_no_infinite_loop() {
    let data = vec![0x00; 256];
    let result = demux_with_loop_detection(&data, 100);
    assert!(result.is_ok());
}
