use batchpipe::batcher::Batcher;
use batchpipe::executor::Executor;
use batchpipe::reader::DynReader;
use batchpipe::text::join_lines;

fn bytes(s: &str) -> Vec<u8> {
    s.as_bytes().to_vec()
}

fn string(v: Vec<u8>) -> String {
    String::from_utf8(v).unwrap()
}

/// Runs the batching half of the pipeline and collects the payload each
/// child process would receive.
fn payloads(input: &str, size: usize, skip_blanks: bool, trim: bool, delim: &str) -> Vec<String> {
    let reader = DynReader::from_reader(bytes(input));
    let mut batcher = Batcher::new(reader, size, skip_blanks, trim);
    let delim = bytes(delim);
    let mut out = Vec::new();
    while let Some(batch) = batcher.next() {
        out.push(string(join_lines(&batch, &delim)));
    }
    out
}

#[test]
fn scenario_blank_skipped_batches_and_payloads() {
    let reader = DynReader::from_reader(bytes("1\n2\n\n3\n"));
    let mut batcher = Batcher::new(reader, 2, true, false);

    let first = batcher.next().unwrap();
    assert_eq!(first, vec![bytes("1"), bytes("2")]);
    let second = batcher.next().unwrap();
    assert_eq!(second, vec![bytes("3")]);
    assert!(batcher.next().is_none());

    assert_eq!(string(join_lines(&first, &bytes(","))), "1,2");
    assert_eq!(string(join_lines(&second, &bytes(","))), "3");
}

#[test]
fn payload_sequence_for_default_flags() {
    assert_eq!(payloads("1\n2\n\n3\n", 2, true, false, ","), vec!["1,2", "3"]);
}

#[test]
fn payload_sequence_without_blank_skipping() {
    assert_eq!(
        payloads("1\n2\n\n3\n", 2, false, false, ","),
        vec!["1,2", ",3"]
    );
}

#[test]
fn rendered_command_per_batch() {
    let mut command = vec![bytes("prog"), bytes("data={}")];
    let e = Executor::from_command(&mut command, bytes("{}")).ok().unwrap();

    let reader = DynReader::from_reader(bytes("1\n2\n\n3\n"));
    let mut batcher = Batcher::new(reader, 2, true, false);
    let delim = bytes(",");

    let mut rendered_args = Vec::new();
    while let Some(batch) = batcher.next() {
        let payload = join_lines(&batch, &delim);
        let args: Vec<String> = e.render(&payload).into_iter().map(string).collect();
        rendered_args.push(args);
    }
    assert_eq!(
        rendered_args,
        vec![vec!["data=1,2".to_string()], vec!["data=3".to_string()]]
    );
}
