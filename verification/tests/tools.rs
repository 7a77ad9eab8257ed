use flate2::write::GzEncoder;
use flate2::Compression;
use ndarray::Array1;
use ndarray_npy::WriteNpyExt;
use netflix_prize::archive::is_movie_file;
use netflix_prize::archive::is_training_set;
use netflix_prize::archive::read_lines_gz;
use netflix_prize::archive::small_member;
use netflix_prize::archive::SMALL_MEMBERS;
use netflix_prize::download::after_attempt;
use netflix_prize::download::check_digest;
use netflix_prize::download::check_md5;
use netflix_prize::download::full_size;
use netflix_prize::download::on_response;
use netflix_prize::download::range_header;
use netflix_prize::download::ResponseStep;
use netflix_prize::download::RetryStep;
use netflix_prize::npy::block_offset;
use netflix_prize::npy::find_text;
use netflix_prize::npy::load_qual_labels;
use netflix_prize::npy::read_preamble;
use netflix_prize::npy::read_shape;
use netflix_prize::npy::read_words;
use netflix_prize::npy::LabelError;
use netflix_prize::npy::NpyError;
use netflix_prize::npy::Preamble;
use netflix_prize::reference::blend_output;
use netflix_prize::reference::check_code;
use netflix_prize::reference::preflight;
use netflix_prize::reference::reference_check;
use netflix_prize::reference::row_status;
use netflix_prize::reference::run_shape;
use netflix_prize::reference::scratch_stamp;
use netflix_prize::reference::Preflight;
use netflix_prize::reference::Verdict;
use netflix_prize::text::chars_of;
use netflix_prize::tool_args::parse_run;
use netflix_prize::tool_args::parse_store;
use netflix_prize::tool_args::record_row;
use netflix_prize::tool_args::run_mode;
use netflix_prize::tool_args::store_command;
use netflix_prize::tool_args::store_manifests;
use netflix_prize::tool_args::ReportRow;
use netflix_prize::tool_args::RunMode;
use netflix_prize::tool_args::StoreCommand;
use netflix_prize::tool_args::ToolStop;
use std::io::Write;

fn words(line: &str) -> Vec<String> {
    line.split_whitespace().map(|s| s.to_string()).collect()
}

#[test]
fn digests() {
    assert_eq!(check_digest("a8f23d2d76461211c6b4c0ca6df2547d".to_string()), Ok(()));
    assert_eq!(check_md5(b""), Err("d41d8cd98f00b204e9800998ecf8427e".to_string()));
    assert_eq!(check_md5(b"abc"), Err("900150983cd24fb0d6963f7d28e17f72".to_string()));
}

#[test]
fn attempts() {
    assert_eq!(after_attempt(1, true), RetryStep::Done);
    assert_eq!(after_attempt(8, true), RetryStep::Done);
    assert_eq!(after_attempt(1, false), RetryStep::RetryAfter(2));
    assert_eq!(after_attempt(7, false), RetryStep::RetryAfter(14));
    assert_eq!(after_attempt(8, false), RetryStep::GiveUp);
}

#[test]
fn a_transfer_goes_on_where_it_stopped() {
    assert_eq!(range_header(0), None);
    assert_eq!(range_header(1234), Some("bytes=1234-".to_string()));
    assert_eq!(on_response(0, 200), ResponseStep::Append);
    assert_eq!(on_response(10, 206), ResponseStep::Append);
    assert_eq!(on_response(10, 200), ResponseStep::Rewrite);
    assert_eq!(on_response(10, 416), ResponseStep::Complete);
    assert_eq!(on_response(0, 416), ResponseStep::Refused);
    assert_eq!(on_response(0, 404), ResponseStep::Refused);
}

#[test]
fn sizes_told_by_the_server() {
    let some = |s: &str| Some(s.to_string());
    assert_eq!(full_size(206, &some("bytes 5-9/10"), &some("5")), Some(10));
    assert_eq!(full_size(206, &some("bytes 5-9/*"), &some("5")), None);
    assert_eq!(full_size(206, &None, &some("5")), None);
    assert_eq!(full_size(200, &None, &some("5")), Some(5));
    assert_eq!(full_size(200, &None, &some("x")), None);
    assert_eq!(full_size(200, &None, &None), None);
}

#[test]
fn members_of_the_archive() {
    let small = ["README", "movie_titles.txt", "probe.txt", "qualifying.txt"];
    assert_eq!(small.len(), SMALL_MEMBERS);
    assert_eq!(small_member("README"), Some("README"));
    assert_eq!(small_member("movie_titles.txt"), Some("movie_titles.csv"));
    assert_eq!(small_member("training_set.tar"), None);
    assert!(is_training_set("training_set.tar") && !is_training_set("README"));
    assert!(is_movie_file("mv_0000001.txt"));
    assert!(!is_movie_file("mv_0000001.csv") && !is_movie_file("movie_titles.txt"));
}

#[test]
fn compressed_lists() {
    let mut e = GzEncoder::new(Vec::new(), Compression::default());
    e.write_all(b"rating,is_test\r\n4,0\n").unwrap();
    let data = e.finish().unwrap();
    assert_eq!(read_lines_gz(&data), Some(vec![b"rating,is_test".to_vec(), b"4,0".to_vec()]));
    assert_eq!(read_lines_gz(b"no gzip at all"), None);
    assert_eq!(read_lines_gz(&data[..data.len() - 3]), None);
}

fn array_file(values: Vec<f32>) -> Vec<u8> {
    let mut out = Vec::new();
    Array1::from(values).write_npy(&mut out).unwrap();
    out
}

#[test]
fn array_files() {
    let values = vec![1.5f32, -2.25, 0.0, 3.0e-9];
    let file = array_file(values.clone());
    let p = read_preamble(&file).unwrap();
    let end = (p.header_at + p.header_len) as usize;
    let head = std::str::from_utf8(&file[p.header_at as usize..end]).unwrap();
    assert_eq!(read_shape(head), Ok(4));
    let read: Vec<f32> = read_words(&file[end..]).into_iter().map(f32::from_bits).collect();
    assert_eq!(read, values);
    let at = block_offset(end as u64, 4, 1, 2).unwrap() as usize;
    let read: Vec<f32> = read_words(&file[at..at + 8]).into_iter().map(f32::from_bits).collect();
    assert_eq!(read, vec![-2.25, 0.0]);
    assert_eq!(block_offset(end as u64, 4, 3, 2), None);
}

#[test]
fn preambles() {
    assert_eq!(read_preamble(b"\x93NUMP"), Err(NpyError::Short));
    assert_eq!(read_preamble(b"PK\x03\x04......"), Err(NpyError::BadMagic));
    assert_eq!(
        read_preamble(b"\x93NUMPY\x01\x00\x76\x00"),
        Ok(Preamble { header_len: 118, header_at: 10 })
    );
    assert_eq!(
        read_preamble(b"\x93NUMPY\x02\x00\x76\x01\x00\x00"),
        Ok(Preamble { header_len: 374, header_at: 12 })
    );
}

#[test]
fn shapes() {
    let head = |shape: &str| format!("{{'descr': '<f4', 'fortran_order': False, 'shape': {}, }}", shape);
    assert_eq!(read_shape(&head("(123,)")), Ok(123));
    assert_eq!(read_shape(&head("(2, 3)")), Ok(2));
    assert_eq!(read_shape(&head("(x,)")), Err(NpyError::BadShape));
    assert_eq!(read_shape(&head("7")), Err(NpyError::NoOpen));
    assert_eq!(read_shape(&head("(7")), Err(NpyError::NoClose));
    assert_eq!(read_shape("{'descr': '<f4'}"), Err(NpyError::NoShape));
    assert_eq!(read_shape("{'descr': '<f8', 'shape': (3,)}"), Err(NpyError::BadType));
    assert_eq!(find_text(&chars_of("abcabc"), "ca"), Some(2));
    assert_eq!(find_text(&chars_of("abc"), "x"), None);
}

#[test]
fn labels_of_the_qualifying_set() {
    let lines = |list: &[&str]| list.iter().map(|s| s.to_string()).collect::<Vec<String>>();
    assert_eq!(
        load_qual_labels(&lines(&["rating,is_test", "4,0", " 2 , 1"])),
        Ok((vec![4, 2], vec![0, 1]))
    );
    assert_eq!(load_qual_labels(&lines(&["h", "4"])), Err(LabelError::BadRow(1)));
    assert_eq!(load_qual_labels(&lines(&["h", "4,0", "200,0"])), Err(LabelError::BadRating(2)));
    assert_eq!(load_qual_labels(&lines(&["h", "4,x"])), Err(LabelError::BadTest(1)));
    assert_eq!(load_qual_labels(&lines(&[])), Ok((vec![], vec![])));
}

#[test]
fn run_lines() {
    let read = |line: &str| parse_run(&words(line));
    let a = read("-n -f tsvdx4-64").ok().unwrap();
    assert_eq!(a.pipeline, "pipeline-new.toml");
    assert_eq!(a.job, Some("tsvdx4-64".to_string()));
    assert_eq!(run_mode(&a), (RunMode::Job, false));
    assert_eq!(run_mode(&read("").ok().unwrap()), (RunMode::List, false));
    assert_eq!(run_mode(&read("-f").ok().unwrap()), (RunMode::List, true));
    assert_eq!(run_mode(&read("-l job").ok().unwrap()), (RunMode::Job, true));
    assert_eq!(run_mode(&read("-n -c -f").ok().unwrap()), (RunMode::Clean, false));
    assert_eq!(run_mode(&read("--setup -c").ok().unwrap()), (RunMode::Setup, false));
    assert_eq!(read("-p x.toml -l").ok().unwrap().pipeline, "x.toml");
    assert_eq!(read("--help").err(), Some(ToolStop::Help));
    assert_eq!(read("a b").err(), Some(ToolStop::SecondJob(1)));
    assert_eq!(read("a -z").err(), Some(ToolStop::Unknown(1)));
    assert_eq!(read("-p").err(), Some(ToolStop::NeedsValue(0)));
}

#[test]
fn store_lines() {
    let read = |line: &str| parse_store(&words(line));
    let command = |line: &str| store_command(&read(line).ok().unwrap());
    assert_eq!(command(""), StoreCommand::Help);
    assert_eq!(command("index"), StoreCommand::Index);
    assert_eq!(command("pull a* b*"), StoreCommand::Pull(8));
    assert_eq!(command("pull -j 3"), StoreCommand::Pull(3));
    assert_eq!(command("push"), StoreCommand::Push(4));
    assert_eq!(command("prune"), StoreCommand::Prune(4, false));
    assert_eq!(command("prune -y"), StoreCommand::Prune(4, true));
    assert_eq!(command("prune -y -n"), StoreCommand::Prune(4, false));
    assert_eq!(command("push extra"), StoreCommand::ExtraWords);
    assert_eq!(command("fetch"), StoreCommand::Unknown);
    let a = read("--bucket b -o out --index i --quick -p one -p two push").ok().unwrap();
    assert_eq!((a.bucket.as_deref(), a.output.as_deref()), (Some("b"), Some("out")));
    assert_eq!((a.index.as_deref(), a.quick), (Some("i"), true));
    assert_eq!(store_manifests(&a), words("one two"));
    assert_eq!(
        store_manifests(&read("push").ok().unwrap()),
        words("pipeline-old.toml pipeline-new.toml")
    );
    assert_eq!(read("-j 0").err(), Some(ToolStop::BadJobs(0)));
    assert_eq!(read("-j x").err(), Some(ToolStop::BadJobs(0)));
    assert_eq!(read("-z").err(), Some(ToolStop::Unknown(0)));
    assert_eq!(read("--bucket").err(), Some(ToolStop::NeedsValue(0)));
    assert_eq!(read("pull -h").err(), Some(ToolStop::Help));
}

#[test]
fn rows_to_record() {
    let row = |name: &str, p: Option<&str>, q: Option<&str>| ReportRow {
        name: name.to_string(),
        probe: p.map(|s| s.to_string()),
        quiz: q.map(|s| s.to_string()),
    };
    let some = |a: &str, b: &str| Some((a.to_string(), b.to_string()));
    let both = row("ensemble", Some("0.9"), Some("0.85"));
    assert_eq!(record_row(&both, true, true), some("ensemble", "{ probe = 0.9, quiz = 0.85 }"));
    assert_eq!(record_row(&both, true, false), some("ensemble", "{ probe = 0.9 }"));
    assert_eq!(record_row(&both, false, true), some("ensemble", "{ quiz = 0.85 }"));
    assert_eq!(record_row(&both, false, false), None);
    assert_eq!(record_row(&row("ensemble + x", Some("1"), None), true, true), None);
}

#[test]
fn shapes_of_a_run() {
    let s = run_shape(true, false, false, 5);
    assert!(!s.forward_on_quiz && s.needs_probe);
    assert_eq!(s.folds, 5);
    let s = run_shape(true, true, false, 5);
    assert!(s.forward_on_quiz && !s.needs_probe);
    assert_eq!(s.folds, 1);
    assert!(!run_shape(false, true, true, 1).needs_probe);
}

#[test]
fn missing_predictions() {
    assert_eq!(preflight(1, 0, false, false), Preflight::NoProbe);
    assert_eq!(preflight(0, 1, true, false), Preflight::NoQual);
    assert_eq!(preflight(0, 1, false, false), Preflight::Go(false));
    assert_eq!(preflight(0, 0, false, false), Preflight::Go(true));
}

#[test]
fn drift_fails_the_check() {
    assert_eq!(row_status(None, None), None);
    assert_eq!(row_status(Some(true), Some(false)), Some(false));
    assert_eq!(row_status(Some(true), None), Some(true));
    assert_eq!(reference_check(&vec![]), Verdict::NothingRecorded);
    assert_eq!(reference_check(&vec![None, None]), Verdict::NothingRecorded);
    assert_eq!(reference_check(&vec![Some(true), None, Some(true)]), Verdict::Pass(2));
    assert_eq!(reference_check(&vec![Some(true), Some(false)]), Verdict::Fail(2));
    assert_eq!(check_code(Verdict::Fail(2)), 1);
    assert_eq!(check_code(Verdict::Pass(2)), 0);
    assert_eq!(check_code(Verdict::NothingRecorded), 0);
}

#[test]
fn output_names() {
    assert_eq!(blend_output("preds_new", "gbr1", 7, "qual"), "preds_new/gbr1-s7.qual.npy");
    assert_eq!(scratch_stamp(&Some("20260101_120000\n".to_string())), "20260101_120000");
}
