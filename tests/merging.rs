use runmerge::key::{column_token, key_of_bits, take_position, KeyError};
use runmerge::merge::{merge_order, Merger};
use runmerge::run::{prepare_runs, read_data, sort_file, Record, Run};
use runmerge::text::split_pieces;
use runmerge::sink::{append_line, append_lines, framed_line};

fn parse(t: String) -> Option<u32> {
    t.parse::<f32>().ok().map(|f| f.to_bits())
}

fn load(lines: &[&str], header: bool, column: usize) -> Result<Run, KeyError> {
    let mut contents = String::new();
    for l in lines {
        contents.push_str(&framed_line(l));
    }
    read_data(&contents, header, column, &parse)
}

fn texts(run: &Run) -> Vec<String> {
    run.records.iter().map(|r| r.text.clone()).collect()
}

fn merged_lines(runs: Vec<Run>) -> Vec<String> {
    let mut m = Merger::new(runs);
    let mut out = Vec::new();
    while let Some((i, p)) = m.pop() {
        out.push(m.runs[i].records[p].text.clone());
    }
    out
}

fn key(x: f32) -> u32 {
    key_of_bits(Some(x.to_bits())).unwrap()
}

#[test]
fn it_writes() {
    let line = "there you go \n".to_string();
    let mut dest = String::new();
    append_line(&mut dest, &line);
    let right_answer = "there you go \n\n";
    assert_eq!(right_answer, dest);
    assert_eq!(framed_line(&line), right_answer);
}

#[test]
fn it_reads() {
    let line = "0.1".to_string();
    let mut dest = String::new();
    append_line(&mut dest, &line);
    let f = read_data(&dest, false, 0, &parse);
    let contents = f.ok().unwrap().records[0].text.clone();
    assert_eq!(line, contents);
}

#[test]
fn example_two_sources_merge_globally() {
    let a = load(&["0.3 x", "0.1 y"], false, 0).unwrap();
    let b = load(&["0.2 z"], false, 0).unwrap();
    let runs = prepare_runs(vec![Ok(a), Ok(b)]);
    assert_eq!(texts(&runs[0]), vec!["0.1 y", "0.3 x"]);
    assert_eq!(runs[0].records[0].key, key(0.1));
    assert_eq!(runs[0].records[1].key, key(0.3));
    assert_eq!(texts(&runs[1]), vec!["0.2 z"]);
    assert_eq!(merged_lines(runs), vec!["0.1 y", "0.2 z", "0.3 x"]);
}

#[test]
fn example_header_is_discarded() {
    let run = load(&["h1 h2", "1.0 a"], true, 0).unwrap();
    assert_eq!(run.records.len(), 1);
    assert_eq!(run.records[0].key, key(1.0));
    assert_eq!(run.records[0].text, "1.0 a");
}

#[test]
fn header_on_empty_source() {
    let run = read_data("", true, 0, &parse).unwrap();
    assert_eq!(run.records.len(), 0);
    let run = read_data("only header", true, 5, &parse).unwrap();
    assert_eq!(run.records.len(), 0);
}

#[test]
fn empty_lines_are_skipped() {
    let run = read_data("\n2 b\n\n1 a\n", false, 0, &parse).unwrap();
    assert_eq!(texts(&run), vec!["2 b", "1 a"]);
}

#[test]
fn missing_column_discards_source() {
    assert_eq!(
        load(&["1 a 3", "2 b"], false, 2).err(),
        Some(KeyError::MissingColumn)
    );
}

#[test]
fn invalid_number_discards_source() {
    assert_eq!(load(&["1 a", "x b"], false, 0).err(), Some(KeyError::InvalidNumber));
    assert_eq!(load(&["NaN a"], false, 0).err(), Some(KeyError::InvalidNumber));
}

#[test]
fn malformed_source_contributes_nothing() {
    let a = load(&["3 a", "1 b"], false, 0);
    let bad = load(&["2 c", "oops d"], false, 0);
    let c = load(&["2 e"], false, 0);
    assert!(bad.is_err());
    let runs = prepare_runs(vec![a, bad, c]);
    assert_eq!(runs.len(), 2);
    assert_eq!(merged_lines(runs), vec!["1 b", "2 e", "3 a"]);
}

#[test]
fn completeness_counts_every_line() {
    let a = load(&["5 a", "1 b", "3 c"], false, 0);
    let b = load(&["4 d"], false, 0);
    let empty = read_data("", false, 0, &parse);
    let c = load(&["2 e", "0 f"], false, 0);
    let runs = prepare_runs(vec![a, b, empty, c]);
    let order = merge_order(runs);
    assert_eq!(order.len(), 6);
}

#[test]
fn global_order_is_non_decreasing() {
    let a = load(&["-1.5 a", "2 b", "10 c"], false, 0).unwrap();
    let b = load(&["-3 d", "0 e", "7 f"], false, 0).unwrap();
    let runs = prepare_runs(vec![Ok(a), Ok(b)]);
    let keys: Vec<f32> = merged_lines(runs)
        .iter()
        .map(|l| l.split(' ').next().unwrap().parse::<f32>().unwrap())
        .collect();
    assert_eq!(keys, vec![-3.0, -1.5, 0.0, 2.0, 7.0, 10.0]);
}

#[test]
fn equal_keys_keep_source_order() {
    let a = load(&["1 second", "0 first", "1 third"], false, 0).unwrap();
    let runs = prepare_runs(vec![Ok(a)]);
    assert_eq!(merged_lines(runs), vec!["0 first", "1 second", "1 third"]);
}

#[test]
fn equal_keys_across_sources_by_index() {
    let a = load(&["1 a0", "1 a1"], false, 0).unwrap();
    let b = load(&["1 b0"], false, 0).unwrap();
    let c = load(&["0 c0", "1 c1"], false, 0).unwrap();
    let runs = prepare_runs(vec![Ok(c), Ok(b), Ok(a)]);
    assert_eq!(merged_lines(runs), vec!["0 c0", "1 c1", "1 b0", "1 a0", "1 a1"]);
}

#[test]
fn merge_order_positions() {
    let a = load(&["1 a", "4 b"], false, 0).unwrap();
    let b = load(&["2 c", "3 d"], false, 0).unwrap();
    let order = merge_order(prepare_runs(vec![Ok(a), Ok(b)]));
    assert_eq!(order, vec![(0, 0), (1, 0), (1, 1), (0, 1)]);
}

#[test]
fn merger_ends_with_none() {
    let mut m = Merger::new(vec![Run { records: vec![] }]);
    assert_eq!(m.pop(), None);
    let mut m = Merger::new(vec![]);
    assert_eq!(m.pop(), None);
}

#[test]
fn zeros_share_a_key() {
    let a = load(&["0 pos", "-0 neg"], false, 0).unwrap();
    assert_eq!(a.records[0].key, a.records[1].key);
    let runs = prepare_runs(vec![Ok(a)]);
    assert_eq!(texts(&runs[0]), vec!["0 pos", "-0 neg"]);
}

#[test]
fn sort_is_stable() {
    let mut run = Run {
        records: vec![
            Record { key: 5, text: "a".to_string() },
            Record { key: 2, text: "b".to_string() },
            Record { key: 5, text: "c".to_string() },
            Record { key: 2, text: "d".to_string() },
        ],
    };
    sort_file(&mut run);
    assert_eq!(texts(&run), vec!["b", "d", "a", "c"]);
}

#[test]
fn key_values() {
    assert_eq!(key_of_bits(Some(0x3f80_0000)), Ok(0xbf80_0000));
    assert_eq!(key_of_bits(Some(0xbf80_0000)), Ok(0x4080_0000));
    assert_eq!(key_of_bits(Some(0x0000_0000)), Ok(0x8000_0000));
    assert_eq!(key_of_bits(Some(0x8000_0000)), Ok(0x8000_0000));
    assert_eq!(key_of_bits(Some(0x7f80_0000)), Ok(0xff80_0000));
    assert_eq!(key_of_bits(Some(0xff80_0000)), Ok(0x0080_0000));
    assert_eq!(key_of_bits(Some(0x7fc0_0000)), Err(KeyError::InvalidNumber));
    assert_eq!(key_of_bits(None), Err(KeyError::InvalidNumber));
    assert!(key(-2.5) < key(-1.0));
    assert!(key(-1.0) < key(0.0));
    assert!(key(0.1) < key(0.2));
    assert!(key(1e30) < key(f32::INFINITY));
}

#[test]
fn column_tokens() {
    assert_eq!(column_token("a  b", 0), Ok("a".to_string()));
    assert_eq!(column_token("a  b", 1), Ok("".to_string()));
    assert_eq!(column_token("a  b", 2), Ok("b".to_string()));
    assert_eq!(column_token("a  b", 3), Err(KeyError::MissingColumn));
    assert_eq!(column_token("", 0), Ok("".to_string()));
    assert_eq!(take_position("x y 2.5", 2, &parse), Ok(key(2.5)));
    assert_eq!(take_position("x y 2.5", 1, &parse), Err(KeyError::InvalidNumber));
    assert_eq!(take_position("x y 2.5", 3, &parse), Err(KeyError::MissingColumn));
}

#[test]
fn split_keeps_empty_pieces() {
    assert_eq!(split_pieces("a\n\nb\n", '\n'), vec!["a", "", "b", ""]);
    assert_eq!(split_pieces("", '\n'), vec![""]);
}

#[test]
fn append_keeps_prior_content() {
    let mut dest = "old 1\nold 2\n".to_string();
    let lines = vec!["0.1 y".to_string(), "0.2 z".to_string()];
    append_lines(&mut dest, &lines);
    assert_eq!(dest, "old 1\nold 2\n0.1 y\n0.2 z\n");
}
