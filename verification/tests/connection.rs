use iqfeed::client::{Action, Event, IQFeed, Phase};
use iqfeed::errors::Error;

/// Runs a connection as a driver would: each chunk is one read, and every
/// frame handed out is reported as forwarded. Returns the frames in the order
/// they came out.
fn drive(feed: &mut IQFeed, chunks: &[&[u8]]) -> Vec<Vec<u8>> {
    let mut forwarded = Vec::new();
    for chunk in chunks {
        let mut action = feed.process(Event::Received(chunk.to_vec()));
        loop {
            match action {
                Action::Forward(frame) => {
                    forwarded.push(frame);
                    action = feed.process(Event::Forwarded);
                }
                Action::Read => break,
                Action::Close(reason) => panic!("closed: {:?}", reason),
            }
        }
    }
    forwarded
}

fn frames_of(chunks: &[&[u8]]) -> (Vec<Vec<u8>>, Vec<u8>) {
    let mut feed = IQFeed::new();
    let forwarded = drive(&mut feed, chunks);
    (forwarded, feed.accumulator().to_vec())
}

#[test]
fn fresh_connection_streams_with_nothing_held() {
    let feed = IQFeed::new();
    assert_eq!(feed.phase(), Phase::Streaming);
    assert_eq!(feed.accumulator(), b"");
    assert_eq!(feed.scan_cursor(), 0);
}

#[test]
fn two_frames_in_one_read() {
    let mut feed = IQFeed::new();
    let first = feed.process(Event::Received(b"X,1,2\nY,3,4\n".to_vec()));
    assert_eq!(first, Action::Forward(b"X,1,2".to_vec()));
    assert_eq!(feed.accumulator(), b"Y,3,4\n");
    let second = feed.process(Event::Forwarded);
    assert_eq!(second, Action::Forward(b"Y,3,4".to_vec()));
    assert_eq!(feed.accumulator(), b"");
    let third = feed.process(Event::Forwarded);
    assert_eq!(third, Action::Read);
    assert_eq!(feed.accumulator(), b"");
    assert_eq!(feed.phase(), Phase::Streaming);
}

#[test]
fn two_frames_over_two_reads() {
    let mut feed = IQFeed::new();
    assert_eq!(feed.process(Event::Received(b"X,1".to_vec())), Action::Read);
    assert_eq!(feed.accumulator(), b"X,1");
    assert_eq!(
        feed.process(Event::Received(b",2\nY,3,4\n".to_vec())),
        Action::Forward(b"X,1,2".to_vec())
    );
    assert_eq!(feed.process(Event::Forwarded), Action::Forward(b"Y,3,4".to_vec()));
    assert_eq!(feed.process(Event::Forwarded), Action::Read);
    assert_eq!(feed.accumulator(), b"");
}

#[test]
fn two_reads_give_the_frames_of_one_read() {
    let single = frames_of(&[b"X,1,2\nY,3,4\n"]);
    let split = frames_of(&[b"X,1", b",2\nY,3,4\n"]);
    assert_eq!(single.0, vec![b"X,1,2".to_vec(), b"Y,3,4".to_vec()]);
    assert_eq!(single.1, b"");
    assert_eq!(split, single);
}

#[test]
fn frame_split_across_reads_is_put_together() {
    let mut feed = IQFeed::new();
    assert_eq!(feed.process(Event::Received(b"AB".to_vec())), Action::Read);
    assert_eq!(
        feed.process(Event::Received(b"CD\n".to_vec())),
        Action::Forward(b"ABCD".to_vec())
    );
    assert_eq!(feed.process(Event::Forwarded), Action::Read);
    assert_eq!(feed.accumulator(), b"");
}

#[test]
fn frame_split_across_many_reads_is_put_together() {
    let (forwarded, held) = frames_of(&[b"A", b"B", b"C", b"D", b"\n", b"E"]);
    assert_eq!(forwarded, vec![b"ABCD".to_vec()]);
    assert_eq!(held, b"E");
}

#[test]
fn consecutive_delimiters_forward_nothing_for_the_gap() {
    let (forwarded, held) = frames_of(&[b"A\n\nB\n"]);
    assert_eq!(forwarded, vec![b"A".to_vec(), b"B".to_vec()]);
    assert_eq!(held, b"");
}

#[test]
fn run_of_delimiters_forwards_nothing() {
    let mut feed = IQFeed::new();
    assert_eq!(feed.process(Event::Received(b"\n\n\n\n".to_vec())), Action::Read);
    assert_eq!(feed.accumulator(), b"");
    assert_eq!(feed.phase(), Phase::Streaming);
}

#[test]
fn leading_delimiter_forwards_nothing_and_is_no_error() {
    let mut feed = IQFeed::new();
    assert_eq!(feed.process(Event::Received(b"\n".to_vec())), Action::Read);
    assert_eq!(feed.phase(), Phase::Streaming);
    assert_eq!(feed.accumulator(), b"");
    assert_eq!(
        feed.process(Event::Received(b"Q,1\n".to_vec())),
        Action::Forward(b"Q,1".to_vec())
    );
}

#[test]
fn delimiter_split_from_its_frame() {
    let (forwarded, held) = frames_of(&[b"X,1,2", b"\n", b"\nY"]);
    assert_eq!(forwarded, vec![b"X,1,2".to_vec()]);
    assert_eq!(held, b"Y");
}

#[test]
fn one_byte_at_a_time_gives_what_all_at_once_gives() {
    let stream: &[u8] = b"T,AAPL,1.5\n\nQ,MSFT,2,3\nT,IBM,9\npartial";
    let whole = frames_of(&[stream]);
    let bytes: Vec<&[u8]> = stream.chunks(1).collect();
    let single = frames_of(&bytes);
    let triples: Vec<&[u8]> = stream.chunks(3).collect();
    let three = frames_of(&triples);
    assert_eq!(
        whole.0,
        vec![b"T,AAPL,1.5".to_vec(), b"Q,MSFT,2,3".to_vec(), b"T,IBM,9".to_vec()]
    );
    assert_eq!(whole.1, b"partial");
    assert_eq!(single, whole);
    assert_eq!(three, whole);
}

#[test]
fn frame_longer_than_a_read_buffer() {
    let mut body = vec![b'z'; 5000];
    let expected = body.clone();
    body.push(b'\n');
    let chunks: Vec<&[u8]> = body.chunks(2048).collect();
    let (forwarded, held) = frames_of(&chunks);
    assert_eq!(forwarded, vec![expected]);
    assert_eq!(held, b"");
}

#[test]
fn bytes_without_delimiter_stay_in_the_accumulator() {
    let mut feed = IQFeed::new();
    assert_eq!(feed.process(Event::Received(b"no end".to_vec())), Action::Read);
    assert_eq!(feed.process(Event::Received(b" yet".to_vec())), Action::Read);
    assert_eq!(feed.accumulator(), b"no end yet");
}

#[test]
fn carriage_return_is_content() {
    let (forwarded, held) = frames_of(&[b"A\r\nB\r\n"]);
    assert_eq!(forwarded, vec![b"A\r".to_vec(), b"B\r".to_vec()]);
    assert_eq!(held, b"");
}

#[test]
fn cursor_rests_on_the_last_byte_after_a_scan_that_found_nothing() {
    let mut feed = IQFeed::new();
    assert_eq!(feed.process(Event::Received(b"ABC".to_vec())), Action::Read);
    assert_eq!(feed.scan_cursor(), 2);
    assert_eq!(feed.process(Event::Received(b"DE".to_vec())), Action::Read);
    assert_eq!(feed.scan_cursor(), 4);
}

#[test]
fn cursor_is_zero_on_an_empty_accumulator() {
    let mut feed = IQFeed::new();
    assert_eq!(feed.process(Event::Received(b"\n".to_vec())), Action::Read);
    assert_eq!(feed.accumulator(), b"");
    assert_eq!(feed.scan_cursor(), 0);
}

#[test]
fn cursor_goes_back_to_the_start_when_a_frame_leaves() {
    let mut feed = IQFeed::new();
    assert_eq!(feed.process(Event::Received(b"ABC".to_vec())), Action::Read);
    assert_eq!(feed.scan_cursor(), 2);
    assert_eq!(
        feed.process(Event::Received(b"D\nEFG".to_vec())),
        Action::Forward(b"ABCD".to_vec())
    );
    assert_eq!(feed.scan_cursor(), 0);
    assert_eq!(feed.accumulator(), b"EFG");
    assert_eq!(feed.process(Event::Forwarded), Action::Read);
    assert_eq!(feed.scan_cursor(), 2);
}

#[test]
fn delimiter_right_after_the_cursor_is_found() {
    let mut feed = IQFeed::new();
    assert_eq!(feed.process(Event::Received(b"AB".to_vec())), Action::Read);
    assert_eq!(feed.scan_cursor(), 1);
    assert_eq!(
        feed.process(Event::Received(b"\n".to_vec())),
        Action::Forward(b"AB".to_vec())
    );
}

#[test]
fn read_of_no_bytes_closes_with_a_transport_failure() {
    let mut feed = IQFeed::new();
    assert_eq!(feed.process(Event::Received(b"half".to_vec())), Action::Read);
    assert_eq!(feed.process(Event::Received(Vec::new())), Action::Close(Error::Tcp));
    assert_eq!(feed.phase(), Phase::Closed(Error::Tcp));
    assert_eq!(feed.accumulator(), b"half");
}

#[test]
fn failed_read_closes_with_a_transport_failure() {
    let mut feed = IQFeed::new();
    assert_eq!(feed.process(Event::Failed(Error::Tcp)), Action::Close(Error::Tcp));
    assert_eq!(feed.phase(), Phase::Closed(Error::Tcp));
}

#[test]
fn decode_failure_stops_the_frames_after_it() {
    let mut feed = IQFeed::new();
    assert_eq!(
        feed.process(Event::Received(b"good\nbad\nnever\n".to_vec())),
        Action::Forward(b"good".to_vec())
    );
    assert_eq!(feed.process(Event::Forwarded), Action::Forward(b"bad".to_vec()));
    assert_eq!(feed.process(Event::Failed(Error::Number)), Action::Close(Error::Number));
    assert_eq!(feed.phase(), Phase::Closed(Error::Number));
    assert_eq!(feed.process(Event::Forwarded), Action::Close(Error::Number));
    assert_eq!(feed.process(Event::Received(b"more\n".to_vec())), Action::Close(Error::Number));
    assert_eq!(feed.process(Event::Failed(Error::Tcp)), Action::Close(Error::Number));
    assert_eq!(feed.phase(), Phase::Closed(Error::Number));
    assert_eq!(feed.accumulator(), b"never\n");
}

#[test]
fn timestamp_failure_is_reported_as_such() {
    let mut feed = IQFeed::new();
    assert_eq!(
        feed.process(Event::Received(b"T,not a time\n".to_vec())),
        Action::Forward(b"T,not a time".to_vec())
    );
    assert_eq!(feed.process(Event::Failed(Error::Timestamp)), Action::Close(Error::Timestamp));
    assert_eq!(feed.phase(), Phase::Closed(Error::Timestamp));
}

#[test]
fn float_failure_is_reported_as_such() {
    let mut feed = IQFeed::new();
    assert_eq!(
        feed.process(Event::Received(b"T,1.x\n".to_vec())),
        Action::Forward(b"T,1.x".to_vec())
    );
    assert_eq!(feed.process(Event::Failed(Error::Float)), Action::Close(Error::Float));
    assert_eq!(feed.phase(), Phase::Closed(Error::Float));
}

#[test]
fn closed_channel_leaves_the_accumulator_as_it_was() {
    let mut feed = IQFeed::new();
    assert_eq!(
        feed.process(Event::Received(b"one\ntwo\nthr".to_vec())),
        Action::Forward(b"one".to_vec())
    );
    assert_eq!(feed.accumulator(), b"two\nthr");
    assert_eq!(feed.process(Event::Failed(Error::Channel)), Action::Close(Error::Channel));
    assert_eq!(feed.phase(), Phase::Closed(Error::Channel));
    assert_eq!(feed.accumulator(), b"two\nthr");
    assert_eq!(feed.process(Event::Forwarded), Action::Close(Error::Channel));
    assert_eq!(feed.accumulator(), b"two\nthr");
}

#[test]
fn closed_connection_takes_no_more_bytes() {
    let mut feed = IQFeed::new();
    assert_eq!(feed.process(Event::Failed(Error::Tcp)), Action::Close(Error::Tcp));
    assert_eq!(feed.process(Event::Received(b"late\n".to_vec())), Action::Close(Error::Tcp));
    assert_eq!(feed.accumulator(), b"");
}

#[test]
fn frames_come_out_one_at_a_time_in_wire_order() {
    let mut feed = IQFeed::new();
    let mut action = feed.process(Event::Received(b"1\n22\n333\n4444\n".to_vec()));
    let mut seen = Vec::new();
    while let Action::Forward(frame) = action {
        seen.push(frame);
        action = feed.process(Event::Forwarded);
    }
    assert_eq!(action, Action::Read);
    assert_eq!(
        seen,
        vec![b"1".to_vec(), b"22".to_vec(), b"333".to_vec(), b"4444".to_vec()]
    );
}

#[test]
fn read_reported_while_a_frame_is_out_loses_nothing() {
    let mut feed = IQFeed::new();
    assert_eq!(
        feed.process(Event::Received(b"a\nb".to_vec())),
        Action::Forward(b"a".to_vec())
    );
    assert_eq!(
        feed.process(Event::Received(b"c\nd\n".to_vec())),
        Action::Forward(b"bc".to_vec())
    );
    assert_eq!(feed.process(Event::Forwarded), Action::Forward(b"d".to_vec()));
    assert_eq!(feed.process(Event::Forwarded), Action::Read);
}
