use lib::cli::{
    parse_binary_vectors, parse_labels, parse_query_and_candidates, parse_usize, parse_vector,
    parse_vector_set, run, run_knn_l2_sq, run_nearest_k_l2_sq, run_norm, usage, Invocation,
};
use lib::ranking::{collect_scores, rank_lowest, select_highest, select_lowest};
use lib::score::{score_less_or_equal, total_order_key};
use lib::vote::{majority_vote, predict_by_vote};
use lib::{validate_equal_len, KernelError, KernelResult};

fn strings(values: &[&str]) -> Vec<String> {
    values.iter().map(|s| s.to_string()).collect()
}

fn ok_bits(values: &[f32]) -> Vec<KernelResult<u32>> {
    values.iter().map(|v| Ok(v.to_bits())).collect()
}

#[test]
fn error_messages_match_the_display_text() {
    assert_eq!(
        KernelError::LengthMismatch { left: 2, right: 3 }.message(),
        "vectors must have equal length: 2 vs 3"
    );
    assert_eq!(
        KernelError::LengthMismatch { left: 10, right: 1234567 }.message(),
        "vectors must have equal length: 10 vs 1234567"
    );
    assert_eq!(
        KernelError::ZeroVector.message(),
        "operation is undefined for zero vectors"
    );
    assert_eq!(
        KernelError::EmptyCandidates.message(),
        "candidate set must not be empty"
    );
    assert_eq!(
        KernelError::InvalidK { k: 0, len: 1 }.message(),
        "k must be in 1..=1, got 0"
    );
}

#[test]
fn validate_equal_len_reports_both_lengths() {
    assert_eq!(validate_equal_len(3, 3), Ok(()));
    assert_eq!(
        validate_equal_len(2, 3),
        Err(KernelError::LengthMismatch { left: 2, right: 3 })
    );
}

#[test]
fn message_numbers_read_back_as_usize() {
    for n in [0usize, 7, 10, 99, 100, 65535, usize::MAX] {
        let text = KernelError::InvalidK { k: n, len: n }.message();
        let number = text.rsplit(' ').next().unwrap();
        assert_eq!(parse_usize(number, "k"), Ok(n));
    }
}

#[test]
fn parse_usize_follows_str_parse() {
    for text in ["0", "3", "+7", "-1", "", "+", " 3", "3 ", "1_000", "18446744073709551615", "18446744073709551616", "007"] {
        let expected = text.parse::<usize>().map_err(|_| format!("invalid k: {text}"));
        assert_eq!(parse_usize(text, "k"), expected, "input {text:?}");
    }
}

#[test]
fn parse_labels_reads_padded_fields() {
    assert_eq!(parse_labels(" 10, 20 ,30\t"), Ok(vec![10, 20, 30]));
    assert_eq!(parse_labels("4294967295"), Ok(vec![u32::MAX]));
}

#[test]
fn parse_labels_reports_each_error() {
    assert_eq!(parse_labels(" \t"), Err("labels must not be empty".to_string()));
    assert_eq!(parse_labels("1,,2"), Err("invalid label in '1,,2'".to_string()));
    assert_eq!(parse_labels("1, x ,y"), Err("invalid u32 label: x".to_string()));
    assert_eq!(parse_labels("4294967296"), Err("invalid u32 label: 4294967296".to_string()));
    assert_eq!(parse_labels("-1"), Err("invalid u32 label: -1".to_string()));
}

#[test]
fn parse_vector_keeps_trimmed_literals() {
    assert_eq!(parse_vector(" 1 , 2.5 ,-3e2"), Ok(strings(&["1", "2.5", "-3e2"])));
}

#[test]
fn parse_vector_reports_each_error() {
    assert_eq!(parse_vector("   "), Err("vectors must not be empty".to_string()));
    assert_eq!(parse_vector("1,,2"), Err("invalid vector element in '1,,2'".to_string()));
    assert_eq!(parse_vector("1, abc ,"), Err("invalid f32 value: abc".to_string()));
}

#[test]
fn float_literals_are_what_f32_parsing_accepts() {
    let cases = [
        "1", "1.", ".5", ".", "e5", "1e5", "1E+5", "1e-5", "1e", "1e+", "+1", "-1", "++1", "+-1",
        "inf", "-Infinity", "NaN", "nan", "+nan", "INF", "iNfInItY", "infin", "infinityx", "1.2.3",
        "0x10", "1_0", "-.5e-3", "5.e3", "\u{661}", "1e5.0", "1..", "-", "+.", "00.00", "9e99",
        "1e2e3", "e", "E1", ".e1", "1.e", "3.4028236e38",
    ];
    for text in cases {
        let expected = text.parse::<f32>().is_ok();
        assert_eq!(parse_vector(text).is_ok(), expected, "input {text:?}");
    }
}

#[test]
fn parse_vector_set_reports_the_first_bad_vector() {
    assert_eq!(
        parse_vector_set("1,2; 3 ,4"),
        Ok(vec![strings(&["1", "2"]), strings(&["3", "4"])])
    );
    assert_eq!(parse_vector_set(" "), Err("candidate set must not be empty".to_string()));
    assert_eq!(parse_vector_set("1;;2"), Err("vectors must not be empty".to_string()));
    assert_eq!(parse_vector_set("1;x"), Err("invalid f32 value: x".to_string()));
}

#[test]
fn binary_and_query_arguments_are_checked() {
    assert_eq!(
        parse_binary_vectors(&strings(&["dot", "1"])),
        Err("binary kernels expect exactly 2 vector arguments".to_string())
    );
    assert_eq!(
        parse_binary_vectors(&strings(&["dot", "1,2", "3,4"])),
        Ok((strings(&["1", "2"]), strings(&["3", "4"])))
    );
    assert_eq!(
        parse_query_and_candidates(&strings(&["cosine-all", "1"]), "cosine-all"),
        Err("cosine-all expects a query vector and candidate set".to_string())
    );
}

#[test]
fn run_reports_command_errors() {
    assert_eq!(run(vec![]).err(), Some("expected a command".to_string()));
    assert_eq!(run(strings(&["frob"])).err(), Some("unknown command: frob".to_string()));
    assert_eq!(
        run_norm(&strings(&["norm"])).err(),
        Some("norm expects exactly 1 vector argument".to_string())
    );
    assert_eq!(
        run(strings(&["normalize", "1", "2"])).err(),
        Some("normalize expects exactly 1 vector argument".to_string())
    );
    assert_eq!(
        run(strings(&["nearest-l2-sq", "1"])).err(),
        Some("nearest-l2-sq expects a query vector and candidate set".to_string())
    );
    assert_eq!(
        run_nearest_k_l2_sq(&strings(&["nearest-k-l2-sq", "1", "1"])).err(),
        Some("nearest-k-l2-sq expects query, candidates, and k".to_string())
    );
    assert_eq!(
        run(strings(&["nearest-k-l2-sq", "1", "1", "x"])).err(),
        Some("invalid k: x".to_string())
    );
    assert_eq!(
        run_knn_l2_sq(&strings(&["knn-l2-sq", "1", "1", "1"])).err(),
        Some("knn-l2-sq expects query, samples, labels, and k".to_string())
    );
}

#[test]
fn run_reports_the_first_error_in_argument_order() {
    assert_eq!(
        run(strings(&["knn-l2-sq", "q", "1", "x", "y"])).err(),
        Some("invalid f32 value: q".to_string())
    );
    assert_eq!(
        run(strings(&["knn-l2-sq", "1", "1", "x", "y"])).err(),
        Some("invalid u32 label: x".to_string())
    );
}

#[test]
fn run_hands_back_the_operands() {
    match run(strings(&["knn-l2-sq", "1,1", "1,1;8,8", "10,20", "1"])) {
        Ok(Invocation::KnnL2Sq { query, samples, labels, k }) => {
            assert_eq!(query, strings(&["1", "1"]));
            assert_eq!(samples, vec![strings(&["1", "1"]), strings(&["8", "8"])]);
            assert_eq!(labels, vec![10, 20]);
            assert_eq!(k, 1);
        }
        _ => panic!("expected a kNN invocation"),
    }
}

#[test]
fn usage_lists_every_command() {
    let text = usage();
    assert!(text.starts_with("usage:\n  cargo run -p cli -- dot"));
    for command in ["l2-sq ", "cosine ", "norm ", "normalize ", "l2-sq-all ", "nearest-l2-sq ", "nearest-k-l2-sq ", "cosine-all ", "nearest-cosine ", "knn-l2-sq "] {
        assert!(text.contains(command), "{command}");
    }
}

#[test]
fn score_order_follows_f32_comparisons() {
    let values = [
        f32::NEG_INFINITY, -2.5, -1.0, -0.0, 0.0, 1e-40, 1.0, 3.5, f32::INFINITY, f32::NAN,
    ];
    for a in values {
        for b in values {
            assert_eq!(score_less_or_equal(a.to_bits(), b.to_bits()), a <= b, "{a} <= {b}");
            assert_eq!(
                total_order_key(a.to_bits()).cmp(&total_order_key(b.to_bits())),
                a.total_cmp(&b),
                "{a} vs {b}"
            );
        }
    }
}

#[test]
fn collect_scores_keeps_order_and_first_error() {
    assert_eq!(collect_scores(&[]), Err(KernelError::EmptyCandidates));
    assert_eq!(
        collect_scores(&ok_bits(&[0.0, 1.0, 8.0])),
        Ok(vec![0.0f32.to_bits(), 1.0f32.to_bits(), 8.0f32.to_bits()])
    );
    let scores = vec![
        Ok(1.0f32.to_bits()),
        Err(KernelError::LengthMismatch { left: 2, right: 3 }),
        Err(KernelError::ZeroVector),
    ];
    assert_eq!(
        collect_scores(&scores),
        Err(KernelError::LengthMismatch { left: 2, right: 3 })
    );
}

#[test]
fn select_lowest_takes_the_first_minimum() {
    assert_eq!(select_lowest(&[]), Err(KernelError::EmptyCandidates));
    assert_eq!(
        select_lowest(&ok_bits(&[32.0, 1.0, 2.0, 1.0])),
        Ok((1, 1.0f32.to_bits()))
    );
    assert_eq!(select_lowest(&ok_bits(&[0.0, -0.0])), Ok((0, 0.0f32.to_bits())));
    assert_eq!(
        select_lowest(&[Ok(1.0f32.to_bits()), Err(KernelError::ZeroVector)]),
        Err(KernelError::ZeroVector)
    );
}

#[test]
fn select_lowest_replaces_a_nan() {
    assert_eq!(
        select_lowest(&ok_bits(&[f32::NAN, 5.0])),
        Ok((1, 5.0f32.to_bits()))
    );
    assert_eq!(select_lowest(&ok_bits(&[1.0, f32::NAN])).map(|(i, _)| i), Ok(1));
}

#[test]
fn select_highest_takes_the_first_maximum() {
    assert_eq!(select_highest(&[]), Err(KernelError::EmptyCandidates));
    assert_eq!(
        select_highest(&ok_bits(&[0.0, 1.0, -1.0, 1.0])),
        Ok((1, 1.0f32.to_bits()))
    );
}

#[test]
fn rank_lowest_sorts_by_score_then_position() {
    let scores = ok_bits(&[32.0, 1.0, 0.0, 2.0, 1.0]);
    assert_eq!(
        rank_lowest(&scores, 4),
        Ok(vec![
            (2, 0.0f32.to_bits()),
            (1, 1.0f32.to_bits()),
            (4, 1.0f32.to_bits()),
            (3, 2.0f32.to_bits()),
        ])
    );
}

#[test]
fn rank_lowest_checks_k_before_the_scores() {
    assert_eq!(rank_lowest(&[], 0), Err(KernelError::EmptyCandidates));
    assert_eq!(
        rank_lowest(&ok_bits(&[1.0]), 0),
        Err(KernelError::InvalidK { k: 0, len: 1 })
    );
    assert_eq!(
        rank_lowest(&[Err(KernelError::ZeroVector)], 2),
        Err(KernelError::InvalidK { k: 2, len: 1 })
    );
    assert_eq!(
        rank_lowest(&[Ok(0), Err(KernelError::ZeroVector)], 1),
        Err(KernelError::ZeroVector)
    );
}

#[test]
fn ranking_more_neighbours_extends_the_list() {
    let scores = ok_bits(&[5.0, 3.0, 9.0, 1.0, 3.0, -2.0]);
    let all = rank_lowest(&scores, scores.len()).unwrap();
    for k in 1..=scores.len() {
        assert_eq!(rank_lowest(&scores, k).unwrap(), all[..k].to_vec());
    }
}

#[test]
fn first_ranked_is_the_nearest() {
    let scores = ok_bits(&[5.0, 3.0, 9.0, 1.0, 1.0]);
    let first = rank_lowest(&scores, 1).unwrap()[0];
    assert_eq!(select_lowest(&scores), Ok(first));
}

#[test]
fn majority_vote_breaks_ties_by_first_vote() {
    assert_eq!(majority_vote(&[10, 10, 20]), 10);
    assert_eq!(majority_vote(&[20, 10, 10, 20]), 20);
    assert_eq!(majority_vote(&[7, 3, 3]), 3);
    assert_eq!(majority_vote(&[4]), 4);
}

#[test]
fn predict_by_vote_checks_labels_then_ranks() {
    let scores = ok_bits(&[0.0, 0.05, 98.0, 91.25]);
    assert_eq!(predict_by_vote(&scores, &[10, 10, 20, 20], 3), Ok(10));
    assert_eq!(predict_by_vote(&scores, &[10, 20, 20, 20], 1), Ok(10));
    assert_eq!(predict_by_vote(&scores, &[10, 20, 20, 20], 4), Ok(20));
    assert_eq!(
        predict_by_vote(&scores, &[10, 20], 3),
        Err(KernelError::LengthMismatch { left: 4, right: 2 })
    );
    assert_eq!(
        predict_by_vote(&scores, &[1, 2, 3, 4], 5),
        Err(KernelError::InvalidK { k: 5, len: 4 })
    );
}

#[test]
fn white_space_is_the_unicode_property() {
    for code in 0..=0x10ffffu32 {
        if let Some(c) = char::from_u32(code) {
            assert_eq!(lib::text::white_space(c), c.is_whitespace(), "U+{code:04X}");
        }
    }
}

#[test]
fn split_and_trim_follow_str() {
    let cases = ["", ",", "a,,b", " a , b ", ",x,", "\u{3000}q\u{85}", "no separator"];
    for text in cases {
        let chars: Vec<char> = text.chars().collect();
        let pieces: Vec<String> = lib::text::split_chars(&chars, ',')
            .into_iter()
            .map(|piece| piece.into_iter().collect())
            .collect();
        let expected: Vec<String> = text.split(',').map(str::to_string).collect();
        assert_eq!(pieces, expected, "input {text:?}");
        let (a, b) = lib::text::trim_bounds(&chars, 0, chars.len());
        let trimmed: String = chars[a..b].iter().collect();
        assert_eq!(trimmed, text.trim(), "input {text:?}");
    }
}
