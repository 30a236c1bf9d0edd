use batchpipe::batcher::Batcher;
use batchpipe::reader::DynReader;

fn bytes(s: &str) -> Vec<u8> {
    s.as_bytes().to_vec()
}

fn empty_batcher(size: usize, skip_blanks: bool, trim: bool) -> Batcher {
    Batcher::new(DynReader::from_reader(Vec::new()), size, skip_blanks, trim)
}

#[test]
fn try_next_full_waits_for_a_full_batch() {
    let mut b = empty_batcher(2, true, false);
    b.feed(&bytes("a\n"));
    assert!(b.try_next_full().is_none());
    b.feed(&bytes("b\n"));
    assert_eq!(b.try_next_full(), Some(vec![bytes("a"), bytes("b")]));
    b.feed(&bytes("c\n"));
    assert!(b.try_next_full().is_none());
    assert_eq!(b.next(), Some(vec![bytes("c")]));
    assert_eq!(b.next(), None);
}

#[test]
fn try_next_full_does_not_count_blank_lines() {
    let mut b = empty_batcher(2, true, false);
    b.feed(&bytes("1\n"));
    b.feed(&bytes("\n"));
    assert!(b.try_next_full().is_none());
    b.feed(&bytes("2\n"));
    assert_eq!(b.try_next_full(), Some(vec![bytes("1"), bytes("2")]));
}

#[test]
fn try_next_full_with_size_zero_is_none() {
    let mut b = Batcher::new(DynReader::from_reader(bytes("a\n")), 0, true, false);
    assert!(b.try_next_full().is_none());
}

#[test]
fn streamed_batches_match_batches_over_whole_input() {
    let input = "1\n2\n\n3\n4\n5\n";

    let mut streamed = empty_batcher(2, true, false);
    let mut collected = Vec::new();
    for line in input.split_inclusive('\n') {
        streamed.feed(&line.as_bytes().to_vec());
        while let Some(batch) = streamed.try_next_full() {
            collected.push(batch);
        }
    }
    while let Some(batch) = streamed.next() {
        collected.push(batch);
    }

    let mut whole = Batcher::new(DynReader::from_reader(bytes(input)), 2, true, false);
    let mut expected = Vec::new();
    while let Some(batch) = whole.next() {
        expected.push(batch);
    }

    assert_eq!(collected, expected);
}
