use pulse_decode::decode::{DecodeError, DecodeSession, FileData, MessageRaw, Stage, Value};
use pulse_decode::render::FormatOptions;
use pulse_decode::signal::{Level, Run};

fn run(level: Level, length: usize) -> Run {
    Run { level, length }
}

fn header() -> Vec<Run> {
    vec![run(Level::Active, 28), run(Level::Idle, 79)]
}

fn with_header(rest: &[Run]) -> Vec<Run> {
    let mut v = header();
    v.extend_from_slice(rest);
    v
}

#[test]
fn header_alone_is_accepted() {
    let msgs = FileData::parse_file(header()).unwrap();
    assert_eq!(msgs.len(), 1);
    assert!(msgs[0].data.is_empty());
}

#[test]
fn header_active_too_short_is_rejected() {
    let runs = vec![run(Level::Active, 26), run(Level::Idle, 79)];
    assert_eq!(
        FileData::parse_file(runs),
        Err(DecodeError::ProtocolViolation { stage: Stage::HeaderActive, index: 0, level: Level::Active, length: 26 })
    );
}

#[test]
fn header_idle_too_long_is_rejected() {
    let runs = vec![run(Level::Active, 28), run(Level::Idle, 81)];
    assert_eq!(
        FileData::parse_file(runs),
        Err(DecodeError::ProtocolViolation { stage: Stage::HeaderIdle, index: 1, level: Level::Idle, length: 81 })
    );
}

#[test]
fn header_window_edges() {
    for a in [27, 30] {
        for i in [78, 80] {
            let runs = vec![run(Level::Active, a), run(Level::Idle, i)];
            assert!(FileData::parse_file(runs).is_ok());
        }
    }
    assert!(FileData::parse_file(vec![run(Level::Active, 31), run(Level::Idle, 79)]).is_err());
    assert!(FileData::parse_file(vec![run(Level::Active, 28), run(Level::Idle, 77)]).is_err());
    assert!(FileData::parse_file(vec![run(Level::Idle, 28), run(Level::Active, 79)]).is_err());
}

#[test]
fn short_gap_decodes_zero() {
    let msgs = FileData::parse_file(with_header(&[run(Level::Active, 1), run(Level::Idle, 3)])).unwrap();
    assert_eq!(msgs.len(), 1);
    assert_eq!(msgs[0].data, vec![Value::Zero]);
}

#[test]
fn long_gap_decodes_one() {
    let msgs = FileData::parse_file(with_header(&[run(Level::Active, 1), run(Level::Idle, 9)])).unwrap();
    assert_eq!(msgs[0].data, vec![Value::One]);
}

#[test]
fn gap_thresholds() {
    let bits = |gap: usize| {
        FileData::parse_file(with_header(&[run(Level::Active, 1), run(Level::Idle, gap)])).unwrap()[0].data.clone()
    };
    assert_eq!(bits(7), vec![Value::Zero]);
    assert_eq!(bits(8), vec![Value::One]);
    assert_eq!(bits(200), vec![Value::One]);
    assert_eq!(bits(201), vec![]);
}

#[test]
fn terminator_ends_message_without_bit() {
    let msgs = FileData::parse_file(with_header(&[run(Level::Active, 1), run(Level::Idle, 250)])).unwrap();
    assert_eq!(msgs.len(), 1);
    assert!(msgs[0].data.is_empty());
}

#[test]
fn two_messages_back_to_back() {
    let mut runs = with_header(&[run(Level::Active, 1), run(Level::Idle, 9), run(Level::Active, 1), run(Level::Idle, 250)]);
    runs.extend(with_header(&[run(Level::Active, 1), run(Level::Idle, 3)]));
    let n = runs.len();
    let mut session = DecodeSession::new(runs.clone());
    let first = MessageRaw::parse_message(&mut session).unwrap();
    assert_eq!(first.data, vec![Value::One]);
    assert_eq!(session.cursor(), 6);
    let second = MessageRaw::parse_message(&mut session).unwrap();
    assert_eq!(second.data, vec![Value::Zero]);
    assert_eq!(session.cursor(), n);
    assert!(session.is_done());

    let msgs = FileData::parse_file(runs).unwrap();
    assert_eq!(msgs.len(), 2);
    assert_eq!(msgs[0].data, vec![Value::One]);
    assert_eq!(msgs[1].data, vec![Value::Zero]);
}

#[test]
fn missing_bit_idle_is_truncation() {
    let runs = with_header(&[run(Level::Active, 1)]);
    assert_eq!(FileData::parse_file(runs), Err(DecodeError::Truncation { stage: Stage::BitIdle }));
}

#[test]
fn missing_header_idle_is_truncation() {
    let runs = vec![run(Level::Active, 28)];
    assert_eq!(FileData::parse_file(runs), Err(DecodeError::Truncation { stage: Stage::HeaderIdle }));
}

#[test]
fn exhausted_session_is_truncation() {
    let mut session = DecodeSession::new(vec![]);
    assert!(session.is_done());
    assert_eq!(
        MessageRaw::parse_message(&mut session).unwrap_err(),
        DecodeError::Truncation { stage: Stage::HeaderActive }
    );
}

#[test]
fn bit_active_wrong_level_is_violation() {
    let runs = with_header(&[run(Level::Idle, 5)]);
    assert_eq!(
        FileData::parse_file(runs),
        Err(DecodeError::ProtocolViolation { stage: Stage::BitActive, index: 2, level: Level::Idle, length: 5 })
    );
}

#[test]
fn bit_idle_wrong_level_is_violation() {
    let runs = with_header(&[run(Level::Active, 1), run(Level::Active, 4)]);
    assert_eq!(
        FileData::parse_file(runs),
        Err(DecodeError::ProtocolViolation { stage: Stage::BitIdle, index: 3, level: Level::Active, length: 4 })
    );
}

#[test]
fn failed_message_leaves_session_unchanged() {
    let mut session = DecodeSession::new(vec![run(Level::Active, 5), run(Level::Idle, 79)]);
    assert!(MessageRaw::parse_message(&mut session).is_err());
    assert_eq!(session.cursor(), 0);
}

#[test]
fn empty_stream_has_no_messages() {
    assert_eq!(FileData::parse_file(vec![]).unwrap().len(), 0);
}

fn sample_lines(parts: &[(usize, &str)]) -> Vec<String> {
    let mut lines = Vec::new();
    for (count, value) in parts {
        for _ in 0..*count {
            lines.push(value.to_string());
        }
    }
    lines
}

#[test]
fn end_to_end_single_zero() {
    let lines = sample_lines(&[(28, "200"), (79, "50"), (1, "200"), (3, "50")]);
    let file = FileData::new("capture.txt".to_string(), &lines).unwrap();
    assert_eq!(file.path, "capture.txt");
    assert_eq!(file.data.len(), 1);
    let m = &file.data[0];
    assert_eq!(m.data, vec![Value::Zero]);
    let text = m.render(FormatOptions { invert: false, reverse: false });
    assert_eq!(format!("{}:\t{}", m.len(), text), "1:\t0");
}

#[test]
fn end_to_end_adjacent_idle_samples_merge_into_terminator() {
    let lines = sample_lines(&[(28, "200"), (79, "50"), (1, "200"), (3, "50"), (250, "50")]);
    let file = FileData::new("capture.txt".to_string(), &lines).unwrap();
    assert_eq!(file.data.len(), 1);
    assert!(file.data[0].data.is_empty());
}

#[test]
fn end_to_end_ignores_malformed_lines() {
    let mut lines = vec!["# capture".to_string(), "".to_string()];
    lines.extend(sample_lines(&[(28, "255"), (79, "0")]));
    lines.push("noise".to_string());
    lines.extend(sample_lines(&[(1, "200"), (9, "10"), (1, "200"), (3, "179")]));
    let file = FileData::new("f".to_string(), &lines).unwrap();
    assert_eq!(file.data.len(), 1);
    assert_eq!(file.data[0].data, vec![Value::One, Value::Zero]);
}

#[test]
fn end_to_end_bad_header_fails() {
    let lines = sample_lines(&[(20, "200"), (79, "50")]);
    assert_eq!(
        FileData::new("f".to_string(), &lines).unwrap_err(),
        DecodeError::ProtocolViolation { stage: Stage::HeaderActive, index: 0, level: Level::Active, length: 20 }
    );
}
