use openalex_topk::decode::{encode_lines, split_lines};
use openalex_topk::parse::parse_line;
use openalex_topk::pipeline::{process_file, Aggregation, FileReport};
use openalex_topk::record::{RelevanceConfig, WorkObject};
use openalex_topk::topk::TopKAggregator;

fn line(id: &str, is_oa: bool, status: &str, cited: u64, domain: &str, language: &str) -> String {
    format!(
        "{{\"id\":\"{}\",\"title\":\"t\",\"open_access\":{{\"is_oa\":{},\"oa_url\":\"u\",\"oa_status\":\"{}\"}},\"cited_by_count\":{},\"primary_topic\":{{\"id\":\"x\",\"domain\":{{\"display_name\":\"{}\"}}}},\"language\":\"{}\",\"publication_year\":2020,\"publication_date\":\"2020-01-01\"}}",
        id, is_oa, status, cited, domain, language
    )
}

fn work(id: &str, cited: u32) -> WorkObject {
    WorkObject {
        id: id.to_string(),
        is_oa: true,
        oa_status: "gold".to_string(),
        cited_by_count: cited,
        domain: "Social Sciences".to_string(),
        language: "en".to_string(),
        publication_year: 2020,
        publication_date: None,
        raw: String::new(),
    }
}

fn social_config() -> RelevanceConfig {
    RelevanceConfig {
        require_openness: true,
        required_language: None,
        target_domain: Some("Social Sciences".to_string()),
        require_positive_score: true,
    }
}

fn file(lines: &[String]) -> Vec<u8> {
    encode_lines(&lines.to_vec())
}

fn scores(ws: &[WorkObject]) -> Vec<u32> {
    ws.iter().map(|w| w.cited_by_count).collect()
}

fn run(files: &[Vec<u8>], config: &RelevanceConfig, top_k: Option<usize>) -> (Vec<WorkObject>, openalex_topk::pipeline::RunSummary) {
    let mut agg = Aggregation::new(top_k);
    for f in files {
        agg.record_file(process_file(f, config));
    }
    agg.finish()
}

#[test]
fn openness_accepts_gold_when_not_open() {
    let mut w = work("a", 3);
    w.is_oa = false;
    w.oa_status = "gold".to_string();
    assert!(w.is_open());
    let config = RelevanceConfig {
        require_openness: true,
        required_language: None,
        target_domain: None,
        require_positive_score: false,
    };
    assert!(w.is_relevant(&config));
}

#[test]
fn openness_rejects_bronze_when_not_open() {
    let mut w = work("a", 3);
    w.is_oa = false;
    w.oa_status = "bronze".to_string();
    assert!(!w.is_open());
    let config = RelevanceConfig {
        require_openness: true,
        required_language: None,
        target_domain: None,
        require_positive_score: false,
    };
    assert!(!w.is_relevant(&config));
}

#[test]
fn clauses_switch_independently() {
    let mut w = work("a", 0);
    w.language = "fr".to_string();
    let mut config = RelevanceConfig {
        require_openness: false,
        required_language: None,
        target_domain: None,
        require_positive_score: false,
    };
    assert!(w.is_relevant(&config));
    config.require_positive_score = true;
    assert!(!w.is_relevant(&config));
    config.require_positive_score = false;
    config.required_language = Some("en".to_string());
    assert!(!w.is_relevant(&config));
    config.required_language = Some("fr".to_string());
    assert!(w.is_relevant(&config));
    config.target_domain = Some("Physical Sciences".to_string());
    assert!(!w.is_relevant(&config));
}

#[test]
fn reference_policy() {
    let w = work("a", 4);
    assert!(w.is_useful());
    let mut zero = work("b", 0);
    zero.oa_status = "bronze".to_string();
    assert!(zero.is_useful());
    zero.language = "de".to_string();
    assert!(!zero.is_useful());
    let mut closed = work("c", 9);
    closed.is_oa = false;
    closed.oa_status = "closed".to_string();
    assert!(!closed.is_useful());
    closed.oa_status = "gold".to_string();
    assert!(closed.is_useful());
}

#[test]
fn end_to_end_three_files() {
    let ss = "Social Sciences";
    let files = vec![
        file(&[line("w5", true, "gold", 5, "Physical Sciences", "en"), line("w1", false, "closed", 1, ss, "en")]),
        file(&[line("w9", true, "gold", 9, ss, "en"), line("w3", false, "gold", 3, ss, "en")]),
        file(&[line("w7", true, "green", 7, ss, "en"), line("w2", false, "bronze", 2, ss, "en")]),
    ];
    let (works, summary) = run(&files, &social_config(), Some(2));
    assert_eq!(scores(&works), vec![9, 7]);
    assert_eq!(works[0].id, "w9");
    assert_eq!(works[1].id, "w7");
    assert_eq!(summary.files_seen, 3);
    assert_eq!(summary.files_skipped, 0);
    assert_eq!(summary.lines_read, 6);
    assert_eq!(summary.records_evaluated, 6);
    assert_eq!(summary.records_accepted, 3);
    assert_eq!(summary.retained, 2);
}

#[test]
fn malformed_line_is_counted_and_skipped() {
    let ss = "Social Sciences";
    let good = line("g1", true, "gold", 4, ss, "en");
    let mut truncated = line("bad", true, "gold", 8, ss, "en");
    truncated.truncate(truncated.len() / 2);
    let data = file(&[good.clone(), truncated, line("g2", true, "gold", 6, ss, "en"), line("g3", true, "gold", 1, ss, "en")]);
    let report: FileReport = match process_file(&data, &social_config()) {
        Ok(r) => r,
        Err(_) => panic!("decode failed"),
    };
    assert_eq!(report.lines, 4);
    assert_eq!(report.evaluated, 3);
    assert_eq!(report.parse_failures, 1);
    assert_eq!(scores(&report.accepted), vec![4, 6, 1]);
    assert_eq!(report.accepted[0].raw, good);
}

#[test]
fn undecodable_file_is_skipped() {
    let garbage: Vec<u8> = b"not gzip at all".to_vec();
    assert!(process_file(&garbage, &social_config()).is_err());
    let mut cut = file(&[line("a", true, "gold", 4, "Social Sciences", "en")]);
    cut.truncate(cut.len() - 6);
    assert!(process_file(&cut, &social_config()).is_err());
    let ss = "Social Sciences";
    let good = file(&[line("a", true, "gold", 4, ss, "en")]);
    let (works, summary) = run(&[garbage, good], &social_config(), None);
    assert_eq!(scores(&works), vec![4]);
    assert_eq!(summary.files_seen, 2);
    assert_eq!(summary.files_skipped, 1);
}

#[test]
fn rerun_gives_same_scores() {
    let ss = "Social Sciences";
    let files = vec![
        file(&[line("a", true, "gold", 3, ss, "en"), line("b", true, "gold", 3, ss, "en")]),
        file(&[line("c", true, "gold", 8, ss, "en"), line("d", true, "gold", 3, ss, "en")]),
    ];
    let (first, _) = run(&files, &social_config(), Some(2));
    let (second, _) = run(&files, &social_config(), Some(2));
    assert_eq!(scores(&first), scores(&second));
    assert_eq!(scores(&first), vec![8, 3]);
}

#[test]
fn file_order_does_not_change_scores() {
    let ss = "Social Sciences";
    let a = file(&[line("a", true, "gold", 3, ss, "en"), line("b", true, "gold", 10, ss, "en")]);
    let b = file(&[line("c", true, "gold", 8, ss, "en"), line("d", true, "gold", 1, ss, "en")]);
    let c = file(&[line("e", true, "gold", 5, ss, "en")]);
    let (one, _) = run(&[a.clone(), b.clone(), c.clone()], &social_config(), Some(3));
    let (two, _) = run(&[c, a, b], &social_config(), Some(3));
    assert_eq!(scores(&one), vec![10, 8, 5]);
    assert_eq!(scores(&two), vec![10, 8, 5]);
}

#[test]
fn retained_size_is_capped() {
    let mut agg = TopKAggregator::new(Some(3));
    assert_eq!(agg.min_score(), None);
    for (i, s) in [4u32, 9, 1, 7, 2, 8].iter().enumerate() {
        agg.offer(work(&format!("w{}", i), *s));
        assert_eq!(agg.len(), std::cmp::min(3, i + 1));
    }
    assert_eq!(agg.min_score(), Some(7));
    assert_eq!(scores(&agg.into_sorted()), vec![9, 8, 7]);
}

#[test]
fn equal_score_does_not_evict() {
    let mut agg = TopKAggregator::new(Some(2));
    agg.offer(work("a", 5));
    agg.offer(work("b", 6));
    agg.offer(work("c", 5));
    let out = agg.into_sorted();
    assert_eq!(scores(&out), vec![6, 5]);
    assert_eq!(out[1].id, "a");
}

#[test]
fn unbounded_keeps_everything() {
    let mut agg = TopKAggregator::new(None);
    agg.offer_all(vec![work("a", 2), work("b", 0), work("c", 2), work("d", 11)]);
    assert_eq!(agg.len(), 4);
    assert_eq!(scores(&agg.into_sorted()), vec![11, 2, 2, 0]);
}

#[test]
fn zero_capacity_keeps_nothing() {
    let mut agg = TopKAggregator::new(Some(0));
    agg.offer(work("a", 2));
    assert_eq!(agg.len(), 0);
    assert!(agg.into_sorted().is_empty());
}

#[test]
fn absent_citation_count_is_zero() {
    let text = "{\"id\":\"w\",\"open_access\":{\"is_oa\":true,\"oa_status\":\"gold\"},\"primary_topic\":{\"domain\":{\"display_name\":\"Social Sciences\"}},\"language\":\"en\",\"publication_year\":1999,\"publication_date\":null}";
    let w = parse_line(text).expect("parses");
    assert_eq!(w.cited_by_count, 0);
    assert_eq!(w.publication_year, 1999);
    assert_eq!(w.publication_date, None);
    assert_eq!(w.domain, "Social Sciences");
    assert!(w.is_useful());
    assert!(!w.is_relevant(&social_config()));
}

#[test]
fn fields_of_a_parsed_line() {
    let text = line("W42", false, "hybrid", 17, "Health Sciences", "pt");
    let w = parse_line(&text).expect("parses");
    assert_eq!(w.id, "W42");
    assert!(!w.is_oa);
    assert_eq!(w.oa_status, "hybrid");
    assert_eq!(w.cited_by_count, 17);
    assert_eq!(w.language, "pt");
    assert_eq!(w.publication_date, Some("2020-01-01".to_string()));
    assert_eq!(w.raw, text);
}

#[test]
fn wrong_types_fail_to_parse() {
    let base = line("W1", true, "gold", 3, "Social Sciences", "en");
    assert!(parse_line(&base).is_some());
    assert!(parse_line(&base.replace("\"cited_by_count\":3", "\"cited_by_count\":\"3\"")).is_none());
    assert!(parse_line(&base.replace("\"cited_by_count\":3", "\"cited_by_count\":-3")).is_none());
    assert!(parse_line(&base.replace("\"cited_by_count\":3", "\"cited_by_count\":4294967296")).is_none());
    assert!(parse_line(&base.replace("\"is_oa\":true", "\"is_oa\":1")).is_none());
    assert!(parse_line(&base.replace("\"language\":\"en\",", "")).is_none());
    assert!(parse_line(&base.replace("\"2020-01-01\"", "5")).is_none());
    assert!(parse_line("").is_none());
    assert!(parse_line("[1,2]").is_none());
}

#[test]
fn lines_split_at_newlines() {
    let split = |s: &str| -> Vec<Vec<u8>> { split_lines(&s.as_bytes().to_vec()) };
    assert_eq!(split(""), Vec::<Vec<u8>>::new());
    assert_eq!(split("abc\n"), vec![b"abc".to_vec()]);
    assert_eq!(split("abc"), vec![b"abc".to_vec()]);
    assert_eq!(split("a\n\nb"), vec![b"a".to_vec(), Vec::new(), b"b".to_vec()]);
    assert_eq!(split("\n"), vec![Vec::<u8>::new()]);
    assert_eq!(split("\r\n"), vec![Vec::<u8>::new()]);
    assert_eq!(split("a\r\nb\r"), vec![b"a".to_vec(), b"b\r".to_vec()]);
    assert_eq!(split("a\r\r\n"), vec![b"a\r".to_vec()]);
}

#[test]
fn invalid_utf8_line_is_a_failure() {
    let mut framed: Vec<u8> = line("a", true, "gold", 4, "Social Sciences", "en").into_bytes();
    framed.push(b'\n');
    framed.extend_from_slice(&[0xff, 0xfe, b'{', b'}']);
    let mut encoder = flate2::write::GzEncoder::new(Vec::new(), flate2::Compression::default());
    std::io::Write::write_all(&mut encoder, &framed).unwrap();
    let data = encoder.finish().unwrap();
    let report = process_file(&data, &social_config()).ok().expect("decodes");
    assert_eq!(report.lines, 2);
    assert_eq!(report.evaluated, 1);
    assert_eq!(report.parse_failures, 1);
}

#[test]
fn encoded_output_is_compressed_lines() {
    let lines = vec!["{\"a\":1}".to_string(), "{\"b\":2}".to_string()];
    let data = encode_lines(&lines);
    assert_eq!(&data[0..2], &[0x1f, 0x8b]);
    let mut text = String::new();
    std::io::Read::read_to_string(&mut flate2::read::GzDecoder::new(&data[..]), &mut text).unwrap();
    assert_eq!(text, "{\"a\":1}\n{\"b\":2}\n");
}

#[test]
fn unreadable_files_are_counted() {
    let mut agg = Aggregation::new(Some(1));
    agg.record_unreadable();
    agg.record_unreadable();
    let (works, summary) = agg.finish();
    assert!(works.is_empty());
    assert_eq!(summary.files_seen, 2);
    assert_eq!(summary.files_skipped, 2);
    assert_eq!(summary.lines_read, 0);
    assert_eq!(summary.retained, 0);
}

#[test]
fn heap_order_survives_many_offers() {
    let mut agg = TopKAggregator::new(Some(5));
    let mut all: Vec<u32> = Vec::new();
    let mut x: u32 = 7;
    for i in 0..200 {
        x = x.wrapping_mul(1103515245).wrapping_add(12345) % 1000;
        all.push(x);
        agg.offer(work(&format!("w{}", i), x));
    }
    all.sort_unstable_by(|a, b| b.cmp(a));
    all.truncate(5);
    assert_eq!(agg.min_score(), Some(all[4]));
    assert_eq!(scores(&agg.into_sorted()), all);
}

#[test]
fn crlf_lines_lose_the_carriage_return() {
    let ss = "Social Sciences";
    let a = line("a", true, "gold", 4, ss, "en");
    let b = line("b", true, "gold", 6, ss, "en");
    let mut encoder = flate2::write::GzEncoder::new(Vec::new(), flate2::Compression::default());
    std::io::Write::write_all(&mut encoder, format!("{}\r\n{}\r\n", a, b).as_bytes()).unwrap();
    let data = encoder.finish().unwrap();
    let report = process_file(&data, &social_config()).ok().expect("decodes");
    assert_eq!(report.lines, 2);
    assert_eq!(report.evaluated, 2);
    assert_eq!(report.accepted[0].raw, a);
    assert_eq!(report.accepted[1].raw, b);
}
