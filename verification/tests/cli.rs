// The library decides what a command line asks for (`run`); these tests then
// do the `f32` arithmetic the library leaves to its caller, the way the
// command-line tool does, and check the tool's output.

use lib::cli::{run, Invocation};
use lib::ranking::{collect_scores, rank_lowest, select_highest, select_lowest};
use lib::vote::predict_by_vote;
use lib::{validate_equal_len, KernelError, KernelResult};

fn dot(a: &[f32], b: &[f32]) -> f32 {
    a.iter().zip(b).fold(0.0f32, |sum, (x, y)| sum + x * y)
}

fn l2_sq(a: &[f32], b: &[f32]) -> f32 {
    a.iter().zip(b).fold(0.0f32, |sum, (x, y)| {
        let diff = x - y;
        sum + diff * diff
    })
}

fn cosine(a: &[f32], b: &[f32]) -> Option<f32> {
    let (na, nb) = (dot(a, a), dot(b, b));
    if na == 0.0 || nb == 0.0 {
        return None;
    }
    Some(dot(a, b) / (na.sqrt() * nb.sqrt()))
}

fn l2_scores(query: &[f32], candidates: &[Vec<f32>]) -> Vec<KernelResult<u32>> {
    candidates
        .iter()
        .map(|c| validate_equal_len(query.len(), c.len()).map(|_| l2_sq(query, c).to_bits()))
        .collect()
}

fn cosine_scores(query: &[f32], candidates: &[Vec<f32>]) -> Vec<KernelResult<u32>> {
    candidates
        .iter()
        .map(|c| {
            validate_equal_len(query.len(), c.len())?;
            cosine(query, c).map(f32::to_bits).ok_or(KernelError::ZeroVector)
        })
        .collect()
}

fn floats(literals: &[String]) -> Vec<f32> {
    literals.iter().map(|s| s.parse::<f32>().unwrap()).collect()
}

fn sets(sets: &[Vec<String>]) -> Vec<Vec<f32>> {
    sets.iter().map(|s| floats(s)).collect()
}

fn join(values: &[f32]) -> String {
    values.iter().map(|v| format!("{v}")).collect::<Vec<_>>().join(",")
}

fn perform(invocation: Invocation) -> Result<String, String> {
    match invocation {
        Invocation::Dot { a, b } => Ok(format!("{}", dot(&floats(&a), &floats(&b)))),
        Invocation::L2Sq { a, b } => Ok(format!("{}", l2_sq(&floats(&a), &floats(&b)))),
        Invocation::Cosine { a, b } => match cosine(&floats(&a), &floats(&b)) {
            Some(value) => Ok(format!("{value}")),
            None => Err("cosine similarity is undefined for zero vectors".to_string()),
        },
        Invocation::Norm { values } => {
            let v = floats(&values);
            Ok(format!("{}", dot(&v, &v).sqrt()))
        }
        Invocation::Normalize { values } => {
            let v = floats(&values);
            let norm = dot(&v, &v).sqrt();
            if norm == 0.0 {
                return Err("normalization is undefined for zero vectors".to_string());
            }
            Ok(join(&v.iter().map(|x| x / norm).collect::<Vec<_>>()))
        }
        Invocation::L2SqAll { query, candidates } => {
            let bits = collect_scores(&l2_scores(&floats(&query), &sets(&candidates)))
                .map_err(|e| e.message())?;
            Ok(join(&bits.into_iter().map(f32::from_bits).collect::<Vec<_>>()))
        }
        Invocation::NearestL2Sq { query, candidates } => {
            let (i, d) = select_lowest(&l2_scores(&floats(&query), &sets(&candidates)))
                .map_err(|e| e.message())?;
            Ok(format!("{}:{}", i, f32::from_bits(d)))
        }
        Invocation::NearestKL2Sq { query, candidates, k } => {
            let ranked = rank_lowest(&l2_scores(&floats(&query), &sets(&candidates)), k)
                .map_err(|e| e.message())?;
            Ok(ranked
                .iter()
                .map(|(i, d)| format!("{}:{}", i, f32::from_bits(*d)))
                .collect::<Vec<_>>()
                .join(","))
        }
        Invocation::CosineAll { query, candidates } => {
            let bits = collect_scores(&cosine_scores(&floats(&query), &sets(&candidates)))
                .map_err(|e| e.message())?;
            Ok(join(&bits.into_iter().map(f32::from_bits).collect::<Vec<_>>()))
        }
        Invocation::NearestCosine { query, candidates } => {
            let (i, s) = select_highest(&cosine_scores(&floats(&query), &sets(&candidates)))
                .map_err(|e| e.message())?;
            Ok(format!("{}:{}", i, f32::from_bits(s)))
        }
        Invocation::KnnL2Sq { query, samples, labels, k } => {
            let label = predict_by_vote(&l2_scores(&floats(&query), &sets(&samples)), &labels, k)
                .map_err(|e| e.message())?;
            Ok(format!("{label}"))
        }
    }
}

fn run_tool(args: Vec<String>) -> Result<String, String> {
    run(args).and_then(perform)
}

#[test]
fn dot_command_returns_dot_product() {
    let got = run_tool(vec![
        "dot".to_string(),
        "1,2,3".to_string(),
        "4,5,6".to_string(),
    ]);

    assert_eq!(got, Ok("32".to_string()));
}

#[test]
fn l2_sq_command_returns_squared_distance() {
    let got = run_tool(vec![
        "l2-sq".to_string(),
        "1,2,3".to_string(),
        "4,5,6".to_string(),
    ]);

    assert_eq!(got, Ok("27".to_string()));
}

#[test]
fn cosine_command_handles_orthogonal_vectors() {
    let got = run_tool(vec![
        "cosine".to_string(),
        "1,0".to_string(),
        "0,1".to_string(),
    ]);

    assert_eq!(got, Ok("0".to_string()));
}

#[test]
fn rejects_mismatched_lengths() {
    let got = run_tool(vec![
        "dot".to_string(),
        "1,2".to_string(),
        "1,2,3".to_string(),
    ]);

    assert_eq!(
        got,
        Err("vectors must have equal length: 2 vs 3".to_string())
    );
}

#[test]
fn rejects_zero_vector_cosine() {
    let got = run_tool(vec![
        "cosine".to_string(),
        "0,0".to_string(),
        "1,2".to_string(),
    ]);

    assert_eq!(
        got,
        Err("cosine similarity is undefined for zero vectors".to_string())
    );
}

#[test]
fn norm_command_returns_l2_norm() {
    let got = run_tool(vec!["norm".to_string(), "3,4".to_string()]);

    assert_eq!(got, Ok("5".to_string()));
}

#[test]
fn normalize_command_returns_unit_vector() {
    let got = run_tool(vec!["normalize".to_string(), "3,4".to_string()]);

    assert_eq!(got, Ok("0.6,0.8".to_string()));
}

#[test]
fn nearest_l2_sq_command_returns_index_and_distance() {
    let got = run_tool(vec![
        "nearest-l2-sq".to_string(),
        "1,1".to_string(),
        "5,5;2,1;0,0".to_string(),
    ]);

    assert_eq!(got, Ok("1:1".to_string()));
}

#[test]
fn l2_sq_all_command_returns_distances() {
    let got = run_tool(vec![
        "l2-sq-all".to_string(),
        "1,1".to_string(),
        "1,1;2,1;3,3".to_string(),
    ]);

    assert_eq!(got, Ok("0,1,8".to_string()));
}

#[test]
fn nearest_k_l2_sq_command_returns_neighbors() {
    let got = run_tool(vec![
        "nearest-k-l2-sq".to_string(),
        "1,1".to_string(),
        "5,5;2,1;1,1;0,0".to_string(),
        "3".to_string(),
    ]);

    assert_eq!(got, Ok("2:0,1:1,3:2".to_string()));
}

#[test]
fn cosine_all_command_returns_similarities() {
    let got = run_tool(vec![
        "cosine-all".to_string(),
        "1,0".to_string(),
        "1,0;0,1;-1,0".to_string(),
    ]);

    assert_eq!(got, Ok("1,0,-1".to_string()));
}

#[test]
fn nearest_cosine_command_returns_best_similarity() {
    let got = run_tool(vec![
        "nearest-cosine".to_string(),
        "1,0".to_string(),
        "0,1;1,0;-1,0".to_string(),
    ]);

    assert_eq!(got, Ok("1:1".to_string()));
}

#[test]
fn knn_l2_sq_command_returns_predicted_label() {
    let got = run_tool(vec![
        "knn-l2-sq".to_string(),
        "1,1".to_string(),
        "1,1;1.2,1.1;8,8;7.5,8".to_string(),
        "10,10,20,20".to_string(),
        "3".to_string(),
    ]);

    assert_eq!(got, Ok("10".to_string()));
}
