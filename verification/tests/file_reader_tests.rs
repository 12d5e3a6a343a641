use traefik_log_monitor::file_reader::{LogTailer, ReadError};

/// A log file in memory, read the way a caller reads the real one.
struct Log {
    bytes: Vec<u8>,
}

impl Log {
    fn create(content: &str) -> Log {
        Log { bytes: content.as_bytes().to_vec() }
    }

    fn append(&mut self, content: &[u8]) {
        self.bytes.extend_from_slice(content);
    }

    fn size(&self) -> u64 {
        self.bytes.len() as u64
    }

    fn poll(&self, tailer: &mut LogTailer) -> Result<Vec<String>, ReadError> {
        match tailer.pending(self.size()) {
            Some(from) => tailer.read_new_lines(self.size(), &self.bytes[from as usize..]),
            None => tailer.read_new_lines(self.size(), &[]),
        }
    }
}

#[test]
fn test_log_tailer_ignores_existing_entries() {
    let mut log = Log::create("existing line 1\nexisting line 2\n");

    let mut tailer = LogTailer::new(log.size());

    let lines = log.poll(&mut tailer).unwrap();
    assert_eq!(lines.len(), 0);

    log.append(b"new line 1\n");
    log.append(b"new line 2\n");

    let lines = log.poll(&mut tailer).unwrap();
    assert_eq!(lines.len(), 2);
    assert_eq!(lines[0], "new line 1");
    assert_eq!(lines[1], "new line 2");
}

#[test]
fn test_log_tailer_multiple_reads() {
    let mut log = Log::create("");

    let mut tailer = LogTailer::new(log.size());

    log.append(b"batch 1 line 1\n");

    let lines = log.poll(&mut tailer).unwrap();
    assert_eq!(lines.len(), 1);
    assert_eq!(lines[0], "batch 1 line 1");

    log.append(b"batch 2 line 1\n");
    log.append(b"batch 2 line 2\n");

    let lines = log.poll(&mut tailer).unwrap();
    assert_eq!(lines.len(), 2);
    assert_eq!(lines[0], "batch 2 line 1");
    assert_eq!(lines[1], "batch 2 line 2");

    let lines = log.poll(&mut tailer).unwrap();
    assert_eq!(lines.len(), 0);
}

#[test]
fn polls_without_growth_change_nothing() {
    let mut log = Log::create("old\n");
    let mut tailer = LogTailer::new(log.size());
    log.append(b"one\n");
    assert_eq!(log.poll(&mut tailer).unwrap(), vec!["one"]);
    let position = tailer.position();
    assert_eq!(position, 8);
    for _ in 0..2 {
        assert_eq!(tailer.pending(log.size()), None);
        assert_eq!(log.poll(&mut tailer).unwrap(), Vec::<String>::new());
        assert_eq!(tailer.position(), position);
    }
}

#[test]
fn a_file_that_shrank_gives_nothing_even_with_bytes_at_hand() {
    let mut tailer = LogTailer::new(100);
    assert_eq!(tailer.pending(40), None);
    assert_eq!(tailer.read_new_lines(40, b"late line\n").unwrap(), Vec::<String>::new());
    assert_eq!(tailer.position(), 100);
    assert_eq!(tailer.pending(101), Some(100));
}

#[test]
fn a_line_without_its_end_waits_for_the_next_poll() {
    let mut log = Log::create("");
    let mut tailer = LogTailer::new(0);
    log.append(b"complete\npart");
    assert_eq!(log.poll(&mut tailer).unwrap(), vec!["complete"]);
    assert_eq!(tailer.position(), 9);
    assert_eq!(log.poll(&mut tailer).unwrap(), Vec::<String>::new());
    assert_eq!(tailer.position(), 9);
    log.append(b"ial\n");
    assert_eq!(log.poll(&mut tailer).unwrap(), vec!["partial"]);
    assert_eq!(tailer.position(), log.size());
}

#[test]
fn lines_are_trimmed_and_empty_ones_dropped() {
    let mut tailer = LogTailer::new(0);
    let data = "  first \r\n\n \t \r\nsecond\u{a0}\n\u{3000}third\n";
    let lines = tailer.read_new_lines(data.len() as u64, data.as_bytes()).unwrap();
    assert_eq!(lines, vec!["first", "second", "third"]);
    assert_eq!(tailer.position(), data.len() as u64);
}

#[test]
fn position_advances_by_the_bytes_of_the_lines() {
    let mut tailer = LogTailer::new(1000);
    let data = "héllo\nwörld\nrest";
    let lines = tailer.read_new_lines(2000, data.as_bytes()).unwrap();
    assert_eq!(lines, vec!["héllo", "wörld"]);
    assert_eq!(tailer.position(), 1000 + 7 + 7);
}

#[test]
fn a_line_that_is_not_utf8_is_an_error() {
    let mut tailer = LogTailer::new(0);
    let mut data = b"good\n".to_vec();
    data.extend_from_slice(&[0xff, 0xfe, b'\n']);
    data.extend_from_slice(b"after\n");
    let result = tailer.read_new_lines(data.len() as u64, &data);
    assert_eq!(result, Err(ReadError::InvalidData));
    assert_eq!(tailer.position(), 5);
    assert_eq!(ReadError::InvalidData.message(), "stream did not contain valid UTF-8");
}

#[test]
fn a_split_character_at_the_end_is_no_error() {
    let mut tailer = LogTailer::new(0);
    let whole = "ok\ncafé\n".as_bytes();
    let cut = whole.len() - 2;
    assert_eq!(tailer.read_new_lines(cut as u64, &whole[..cut]).unwrap(), vec!["ok"]);
    assert_eq!(tailer.position(), 3);
    assert_eq!(
        tailer.read_new_lines(whole.len() as u64, &whole[3..]).unwrap(),
        vec!["café"]
    );
    assert_eq!(tailer.position(), whole.len() as u64);
}
