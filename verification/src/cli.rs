//! The command-line front end: everything the tool decides about its
//! arguments. Which kernel runs on which operands, and every error message
//! about the arguments, is decided here; computing the kernels on the
//! parsed `f32` values and printing them is left to the caller.
use vstd::prelude::*;

use crate::numeral::{float_literal, is_float_literal, parse_unsigned, unsigned_value};
use crate::text::{
    chars_of, chars_of_range, collect_all, decimal, lemma_collect_all_error,
    lemma_collect_all_full, lemma_collect_all_step, split_chars, split_on, string_of_range, trim,
    trim_bounds, views_of, write_decimal,
};

verus! {

/// The character sequences of `strings`.
pub open spec fn strings_view(strings: Seq<String>) -> Seq<Seq<char>> {
    Seq::new(strings.len(), |i: int| strings[i]@)
}

/// `res` is the executable form of the outcome `spec`.
pub open spec fn matches_outcome<T, V>(res: Result<T, String>, spec: Result<V, Seq<char>>, view: spec_fn(T) -> V) -> bool {
    match res {
        Ok(v) => spec == Ok::<V, Seq<char>>(view(v)),
        Err(m) => spec == Err::<V, Seq<char>>(m@),
    }
}

/// What one comma-separated label field gives.
pub open spec fn label_field(part: Seq<char>, input: Seq<char>) -> Result<u32, Seq<char>> {
    let value = trim(part);
    if value.len() == 0 {
        Err("invalid label in '"@ + input + "'"@)
    } else {
        match unsigned_value(value, u32::MAX as nat) {
            Some(v) => Ok(v as u32),
            None => Err("invalid u32 label: "@ + value),
        }
    }
}

/// What each comma-separated field of `input` gives as a label.
pub open spec fn label_fields(input: Seq<char>) -> Seq<Result<u32, Seq<char>>> {
    let parts = split_on(input, ',');
    Seq::new(parts.len(), |i: int| label_field(parts[i], input))
}

/// What `parse_labels` gives for `input`.
pub open spec fn labels_outcome(input: Seq<char>) -> Result<Seq<u32>, Seq<char>> {
    if trim(input).len() == 0 {
        Err("labels must not be empty"@)
    } else {
        collect_all(label_fields(input))
    }
}

/// Parses comma-separated `u32` labels; fields may be padded with white space.
pub fn parse_labels(input: &str) -> (res: Result<Vec<u32>, String>)
    ensures
        matches_outcome(res, labels_outcome(input@), |v: Vec<u32>| v@),
{
    let chars = chars_of(input);
    let (a, b) = trim_bounds(&chars, 0, chars.len());
    assert(chars@.subrange(0, chars@.len() as int) == chars@);
    if a == b {
        return Err(String::from_str("labels must not be empty"));
    }
    let parts = split_chars(&chars, ',');
    let ghost results = label_fields(input@);
    let mut labels: Vec<u32> = Vec::new();
    for i in 0..parts.len()
        invariant
            views_of(parts@) == split_on(input@, ','),
            results == label_fields(input@),
            trim(input@).len() > 0,
            results.len() == parts@.len(),
            collect_all(results.take(i as int)) == Ok::<Seq<u32>, Seq<char>>(labels@),
    {
        let part = &parts[i];
        proof {
            assert(views_of(parts@)[i as int] == part@);
            assert(results[i as int] == label_field(part@, input@));
            lemma_collect_all_step(results, i as int);
        }
        let (pa, pb) = trim_bounds(part, 0, part.len());
        assert(part@.subrange(0, part@.len() as int) == part@);
        if pa == pb {
            let mut message = String::from_str("invalid label in '");
            message.append(input);
            message.append("'");
            proof {
                lemma_collect_all_error(results, i + 1, message@);
            }
            return Err(message);
        }
        let value = chars_of_range(part, pa, pb);
        match parse_unsigned(&value, u32::MAX as u64) {
            Some(v) => {
                labels.push(v as u32);
            },
            None => {
                let mut message = String::from_str("invalid u32 label: ");
                let text = string_of_range(part, pa, pb);
                message.append(text.as_str());
                proof {
                    lemma_collect_all_error(results, i + 1, message@);
                }
                return Err(message);
            },
        }
    }
    proof {
        lemma_collect_all_full(results);
    }
    Ok(labels)
}

/// What `parse_usize` gives: the value of `input` when it is an unsigned
/// integer no larger than `usize::MAX`, else an error naming `name`.
pub open spec fn usize_outcome(input: Seq<char>, name: Seq<char>) -> Result<usize, Seq<char>> {
    match unsigned_value(input, usize::MAX as nat) {
        Some(v) => Ok(v as usize),
        None => Err("invalid "@ + name + ": "@ + input),
    }
}

/// Parses a `usize` the way `str::parse` does; `name` says what the value is
/// for in the error message.
pub fn parse_usize(input: &str, name: &str) -> (res: Result<usize, String>)
    ensures
        matches_outcome(res, usize_outcome(input@, name@), |v: usize| v),
{
    let chars = chars_of(input);
    match parse_unsigned(&chars, usize::MAX as u64) {
        Some(v) => Ok(v as usize),
        None => {
            let mut message = String::from_str("invalid ");
            message.append(name);
            message.append(": ");
            message.append(input);
            Err(message)
        },
    }
}

/// What one comma-separated vector field gives: its trimmed text, when that
/// is an `f32` literal.
pub open spec fn vector_field(part: Seq<char>, input: Seq<char>) -> Result<Seq<char>, Seq<char>> {
    let value = trim(part);
    if value.len() == 0 {
        Err("invalid vector element in '"@ + input + "'"@)
    } else if is_float_literal(value) {
        Ok(value)
    } else {
        Err("invalid f32 value: "@ + value)
    }
}

/// What each comma-separated field of `input` gives as a vector element.
pub open spec fn vector_fields_of(input: Seq<char>) -> Seq<Result<Seq<char>, Seq<char>>> {
    let parts = split_on(input, ',');
    Seq::new(parts.len(), |i: int| vector_field(parts[i], input))
}

/// What `parse_vector` gives for `input`: the `f32` literals of its fields.
pub open spec fn vector_outcome(input: Seq<char>) -> Result<Seq<Seq<char>>, Seq<char>> {
    if trim(input).len() == 0 {
        Err("vectors must not be empty"@)
    } else {
        collect_all(vector_fields_of(input))
    }
}

/// Splits the characters of a comma-separated vector into `f32` literals.
fn vector_fields(chars: &Vec<char>) -> (res: Result<Vec<String>, String>)
    ensures
        matches_outcome(res, vector_outcome(chars@), |v: Vec<String>| strings_view(v@)),
{
    let (a, b) = trim_bounds(chars, 0, chars.len());
    assert(chars@.subrange(0, chars@.len() as int) == chars@);
    if a == b {
        return Err(String::from_str("vectors must not be empty"));
    }
    let parts = split_chars(chars, ',');
    let ghost results = vector_fields_of(chars@);
    assert(strings_view(Seq::<String>::empty()) == Seq::<Seq<char>>::empty());
    let mut fields: Vec<String> = Vec::new();
    for i in 0..parts.len()
        invariant
            views_of(parts@) == split_on(chars@, ','),
            results == vector_fields_of(chars@),
            trim(chars@).len() > 0,
            results.len() == parts@.len(),
            collect_all(results.take(i as int)) == Ok::<Seq<Seq<char>>, Seq<char>>(
                strings_view(fields@),
            ),
    {
        let part = &parts[i];
        proof {
            assert(views_of(parts@)[i as int] == part@);
            assert(results[i as int] == vector_field(part@, chars@));
            lemma_collect_all_step(results, i as int);
        }
        let (pa, pb) = trim_bounds(part, 0, part.len());
        assert(part@.subrange(0, part@.len() as int) == part@);
        if pa == pb {
            let mut message = String::from_str("invalid vector element in '");
            let text = string_of_range(chars, 0, chars.len());
            assert(chars@.subrange(0, chars@.len() as int) == chars@);
            message.append(text.as_str());
            message.append("'");
            proof {
                lemma_collect_all_error(results, i + 1, message@);
            }
            return Err(message);
        }
        let value = chars_of_range(part, pa, pb);
        let text = string_of_range(part, pa, pb);
        if float_literal(&value) {
            let ghost before = strings_view(fields@);
            let ghost text_view = text@;
            fields.push(text);
            assert(strings_view(fields@) == before.push(text_view));
        } else {
            let mut message = String::from_str("invalid f32 value: ");
            message.append(text.as_str());
            proof {
                lemma_collect_all_error(results, i + 1, message@);
            }
            return Err(message);
        }
    }
    proof {
        lemma_collect_all_full(results);
    }
    Ok(fields)
}

/// Splits a comma-separated vector into its `f32` literals; fields may be
/// padded with white space.
pub fn parse_vector(input: &str) -> (res: Result<Vec<String>, String>)
    ensures
        matches_outcome(res, vector_outcome(input@), |v: Vec<String>| strings_view(v@)),
{
    let chars = chars_of(input);
    vector_fields(&chars)
}

/// The `f32` literals of each vector in a list.
pub open spec fn string_lists_view(lists: Seq<Vec<String>>) -> Seq<Seq<Seq<char>>> {
    Seq::new(lists.len(), |i: int| strings_view(lists[i]@))
}

/// What each semicolon-separated part of `input` gives as a vector.
pub open spec fn vector_set_parts(input: Seq<char>) -> Seq<Result<Seq<Seq<char>>, Seq<char>>> {
    let parts = split_on(input, ';');
    Seq::new(parts.len(), |i: int| vector_outcome(parts[i]))
}

/// What `parse_vector_set` gives for `input`.
pub open spec fn vector_set_outcome(input: Seq<char>) -> Result<Seq<Seq<Seq<char>>>, Seq<char>> {
    if trim(input).len() == 0 {
        Err("candidate set must not be empty"@)
    } else {
        collect_all(vector_set_parts(input))
    }
}

/// Splits semicolon-separated vectors into the `f32` literals of each.
pub fn parse_vector_set(input: &str) -> (res: Result<Vec<Vec<String>>, String>)
    ensures
        matches_outcome(res, vector_set_outcome(input@), |v: Vec<Vec<String>>| string_lists_view(v@)),
{
    let chars = chars_of(input);
    let (a, b) = trim_bounds(&chars, 0, chars.len());
    assert(chars@.subrange(0, chars@.len() as int) == chars@);
    if a == b {
        return Err(String::from_str("candidate set must not be empty"));
    }
    let parts = split_chars(&chars, ';');
    let ghost results = vector_set_parts(input@);
    let mut vectors: Vec<Vec<String>> = Vec::new();
    assert(string_lists_view(Seq::<Vec<String>>::empty()) == Seq::<Seq<Seq<char>>>::empty());
    for i in 0..parts.len()
        invariant
            views_of(parts@) == split_on(input@, ';'),
            results == vector_set_parts(input@),
            trim(input@).len() > 0,
            results.len() == parts@.len(),
            collect_all(results.take(i as int)) == Ok::<Seq<Seq<Seq<char>>>, Seq<char>>(
                string_lists_view(vectors@),
            ),
    {
        let part = &parts[i];
        proof {
            assert(views_of(parts@)[i as int] == part@);
            assert(results[i as int] == vector_outcome(part@));
            lemma_collect_all_step(results, i as int);
        }
        match vector_fields(part) {
            Ok(fields) => {
                let ghost before = string_lists_view(vectors@);
                let ghost fields_view = strings_view(fields@);
                vectors.push(fields);
                assert(string_lists_view(vectors@) == before.push(fields_view));
            },
            Err(message) => {
                proof {
                    lemma_collect_all_error(results, i + 1, message@);
                }
                return Err(message);
            },
        }
    }
    proof {
        lemma_collect_all_full(results);
    }
    Ok(vectors)
}

/// `"vectors must have equal length: {left} vs {right}"`.
pub open spec fn length_mismatch_text(left: nat, right: nat) -> Seq<char> {
    "vectors must have equal length: "@ + decimal(left) + " vs "@ + decimal(right)
}

/// What `parse_binary_vectors` gives: the two vector operands of a binary
/// kernel, which must have equal length.
pub open spec fn binary_outcome(args: Seq<Seq<char>>) -> Result<(Seq<Seq<char>>, Seq<Seq<char>>), Seq<char>> {
    if args.len() != 3 {
        Err("binary kernels expect exactly 2 vector arguments"@)
    } else {
        match vector_outcome(args[1]) {
            Err(e) => Err(e),
            Ok(a) => match vector_outcome(args[2]) {
                Err(e) => Err(e),
                Ok(b) => if a.len() != b.len() {
                    Err(length_mismatch_text(a.len(), b.len()))
                } else {
                    Ok((a, b))
                },
            },
        }
    }
}

/// Reads the two vector operands of a binary kernel (`dot`, `l2-sq`, `cosine`).
pub fn parse_binary_vectors(args: &[String]) -> (res: Result<(Vec<String>, Vec<String>), String>)
    ensures
        matches_outcome(
            res,
            binary_outcome(strings_view(args@)),
            |v: (Vec<String>, Vec<String>)| (strings_view(v.0@), strings_view(v.1@)),
        ),
{
    let ghost args_view = strings_view(args@);
    if args.len() != 3 {
        return Err(String::from_str("binary kernels expect exactly 2 vector arguments"));
    }
    assert(args_view[1] == args@[1]@ && args_view[2] == args@[2]@);
    let a = parse_vector(args[1].as_str())?;
    let b = parse_vector(args[2].as_str())?;
    if a.len() != b.len() {
        let mut message = String::from_str("vectors must have equal length: ");
        write_decimal(a.len(), &mut message);
        message.append(" vs ");
        write_decimal(b.len(), &mut message);
        return Err(message);
    }
    Ok((a, b))
}

/// What `parse_query_and_candidates` gives: a query vector and a set of
/// candidate vectors, for the command `command`.
pub open spec fn query_outcome(args: Seq<Seq<char>>, command: Seq<char>) -> Result<(Seq<Seq<char>>, Seq<Seq<Seq<char>>>), Seq<char>> {
    if args.len() != 3 {
        Err(command + " expects a query vector and candidate set"@)
    } else {
        match vector_outcome(args[1]) {
            Err(e) => Err(e),
            Ok(q) => match vector_set_outcome(args[2]) {
                Err(e) => Err(e),
                Ok(c) => Ok((q, c)),
            },
        }
    }
}

/// Reads a query vector and a candidate set for the command `command`.
pub fn parse_query_and_candidates(args: &[String], command: &str) -> (res: Result<(Vec<String>, Vec<Vec<String>>), String>)
    ensures
        matches_outcome(
            res,
            query_outcome(strings_view(args@), command@),
            |v: (Vec<String>, Vec<Vec<String>>)| (strings_view(v.0@), string_lists_view(v.1@)),
        ),
{
    let ghost args_view = strings_view(args@);
    if args.len() != 3 {
        let mut message = String::from_str(command);
        message.append(" expects a query vector and candidate set");
        return Err(message);
    }
    assert(args_view[1] == args@[1]@ && args_view[2] == args@[2]@);
    let query = parse_vector(args[1].as_str())?;
    let candidates = parse_vector_set(args[2].as_str())?;
    Ok((query, candidates))
}

/// A command line the tool accepted: the kernel to run and its operands.
/// Every vector operand is the list of its `f32` literals.
pub enum Invocation {
    Dot { a: Vec<String>, b: Vec<String> },
    L2Sq { a: Vec<String>, b: Vec<String> },
    Cosine { a: Vec<String>, b: Vec<String> },
    Norm { values: Vec<String> },
    Normalize { values: Vec<String> },
    L2SqAll { query: Vec<String>, candidates: Vec<Vec<String>> },
    NearestL2Sq { query: Vec<String>, candidates: Vec<Vec<String>> },
    NearestKL2Sq { query: Vec<String>, candidates: Vec<Vec<String>>, k: usize },
    CosineAll { query: Vec<String>, candidates: Vec<Vec<String>> },
    NearestCosine { query: Vec<String>, candidates: Vec<Vec<String>> },
    KnnL2Sq { query: Vec<String>, samples: Vec<Vec<String>>, labels: Vec<u32>, k: usize },
}

/// The mathematical content of an `Invocation`.
pub enum Command {
    Dot { a: Seq<Seq<char>>, b: Seq<Seq<char>> },
    L2Sq { a: Seq<Seq<char>>, b: Seq<Seq<char>> },
    Cosine { a: Seq<Seq<char>>, b: Seq<Seq<char>> },
    Norm { values: Seq<Seq<char>> },
    Normalize { values: Seq<Seq<char>> },
    L2SqAll { query: Seq<Seq<char>>, candidates: Seq<Seq<Seq<char>>> },
    NearestL2Sq { query: Seq<Seq<char>>, candidates: Seq<Seq<Seq<char>>> },
    NearestKL2Sq { query: Seq<Seq<char>>, candidates: Seq<Seq<Seq<char>>>, k: usize },
    CosineAll { query: Seq<Seq<char>>, candidates: Seq<Seq<Seq<char>>> },
    NearestCosine { query: Seq<Seq<char>>, candidates: Seq<Seq<Seq<char>>> },
    KnnL2Sq { query: Seq<Seq<char>>, samples: Seq<Seq<Seq<char>>>, labels: Seq<u32>, k: usize },
}

impl View for Invocation {
    type V = Command;

    open spec fn view(&self) -> Command {
        match self {
            Invocation::Dot { a, b } => Command::Dot { a: strings_view(a@), b: strings_view(b@) },
            Invocation::L2Sq { a, b } => Command::L2Sq { a: strings_view(a@), b: strings_view(b@) },
            Invocation::Cosine { a, b } => Command::Cosine { a: strings_view(a@), b: strings_view(b@) },
            Invocation::Norm { values } => Command::Norm { values: strings_view(values@) },
            Invocation::Normalize { values } => Command::Normalize { values: strings_view(values@) },
            Invocation::L2SqAll { query, candidates } => Command::L2SqAll {
                query: strings_view(query@),
                candidates: string_lists_view(candidates@),
            },
            Invocation::NearestL2Sq { query, candidates } => Command::NearestL2Sq {
                query: strings_view(query@),
                candidates: string_lists_view(candidates@),
            },
            Invocation::NearestKL2Sq { query, candidates, k } => Command::NearestKL2Sq {
                query: strings_view(query@),
                candidates: string_lists_view(candidates@),
                k: *k,
            },
            Invocation::CosineAll { query, candidates } => Command::CosineAll {
                query: strings_view(query@),
                candidates: string_lists_view(candidates@),
            },
            Invocation::NearestCosine { query, candidates } => Command::NearestCosine {
                query: strings_view(query@),
                candidates: string_lists_view(candidates@),
            },
            Invocation::KnnL2Sq { query, samples, labels, k } => Command::KnnL2Sq {
                query: strings_view(query@),
                samples: string_lists_view(samples@),
                labels: labels@,
                k: *k,
            },
        }
    }
}

/// What `run_cosine` gives.
pub open spec fn cosine_outcome(args: Seq<Seq<char>>) -> Result<Command, Seq<char>> {
    match binary_outcome(args) {
        Ok((a, b)) => Ok(Command::Cosine { a, b }),
        Err(e) => Err(e),
    }
}

/// The `cosine` command: two vectors of equal length.
pub fn run_cosine(args: &[String]) -> (res: Result<Invocation, String>)
    ensures
        matches_outcome(res, cosine_outcome(strings_view(args@)), |v: Invocation| v@),
{
    let (a, b) = parse_binary_vectors(args)?;
    Ok(Invocation::Cosine { a, b })
}

/// What `run_norm` gives.
pub open spec fn norm_outcome(args: Seq<Seq<char>>) -> Result<Command, Seq<char>> {
    if args.len() != 2 {
        Err("norm expects exactly 1 vector argument"@)
    } else {
        match vector_outcome(args[1]) {
            Ok(values) => Ok(Command::Norm { values }),
            Err(e) => Err(e),
        }
    }
}

/// The `norm` command: one vector.
pub fn run_norm(args: &[String]) -> (res: Result<Invocation, String>)
    ensures
        matches_outcome(res, norm_outcome(strings_view(args@)), |v: Invocation| v@),
{
    if args.len() != 2 {
        return Err(String::from_str("norm expects exactly 1 vector argument"));
    }
    assert(strings_view(args@)[1] == args@[1]@);
    let values = parse_vector(args[1].as_str())?;
    Ok(Invocation::Norm { values })
}

/// What `run_normalize` gives.
pub open spec fn normalize_outcome(args: Seq<Seq<char>>) -> Result<Command, Seq<char>> {
    if args.len() != 2 {
        Err("normalize expects exactly 1 vector argument"@)
    } else {
        match vector_outcome(args[1]) {
            Ok(values) => Ok(Command::Normalize { values }),
            Err(e) => Err(e),
        }
    }
}

/// The `normalize` command: one vector.
pub fn run_normalize(args: &[String]) -> (res: Result<Invocation, String>)
    ensures
        matches_outcome(res, normalize_outcome(strings_view(args@)), |v: Invocation| v@),
{
    if args.len() != 2 {
        return Err(String::from_str("normalize expects exactly 1 vector argument"));
    }
    assert(strings_view(args@)[1] == args@[1]@);
    let values = parse_vector(args[1].as_str())?;
    Ok(Invocation::Normalize { values })
}

/// What `run_nearest_l2_sq` gives.
pub open spec fn nearest_l2_sq_outcome(args: Seq<Seq<char>>) -> Result<Command, Seq<char>> {
    match query_outcome(args, "nearest-l2-sq"@) {
        Ok((query, candidates)) => Ok(Command::NearestL2Sq { query, candidates }),
        Err(e) => Err(e),
    }
}

/// The `nearest-l2-sq` command: a query and a candidate set.
pub fn run_nearest_l2_sq(args: &[String]) -> (res: Result<Invocation, String>)
    ensures
        matches_outcome(res, nearest_l2_sq_outcome(strings_view(args@)), |v: Invocation| v@),
{
    let (query, candidates) = parse_query_and_candidates(args, "nearest-l2-sq")?;
    Ok(Invocation::NearestL2Sq { query, candidates })
}

/// What `run_l2_sq_all` gives.
pub open spec fn l2_sq_all_outcome(args: Seq<Seq<char>>) -> Result<Command, Seq<char>> {
    match query_outcome(args, "l2-sq-all"@) {
        Ok((query, candidates)) => Ok(Command::L2SqAll { query, candidates }),
        Err(e) => Err(e),
    }
}

/// The `l2-sq-all` command: a query and a candidate set.
pub fn run_l2_sq_all(args: &[String]) -> (res: Result<Invocation, String>)
    ensures
        matches_outcome(res, l2_sq_all_outcome(strings_view(args@)), |v: Invocation| v@),
{
    let (query, candidates) = parse_query_and_candidates(args, "l2-sq-all")?;
    Ok(Invocation::L2SqAll { query, candidates })
}

/// What `run_nearest_k_l2_sq` gives.
pub open spec fn nearest_k_l2_sq_outcome(args: Seq<Seq<char>>) -> Result<Command, Seq<char>> {
    if args.len() != 4 {
        Err("nearest-k-l2-sq expects query, candidates, and k"@)
    } else {
        match vector_outcome(args[1]) {
            Err(e) => Err(e),
            Ok(query) => match vector_set_outcome(args[2]) {
                Err(e) => Err(e),
                Ok(candidates) => match usize_outcome(args[3], "k"@) {
                    Err(e) => Err(e),
                    Ok(k) => Ok(Command::NearestKL2Sq { query, candidates, k }),
                },
            },
        }
    }
}

/// The `nearest-k-l2-sq` command: a query, a candidate set and `k`.
pub fn run_nearest_k_l2_sq(args: &[String]) -> (res: Result<Invocation, String>)
    ensures
        matches_outcome(res, nearest_k_l2_sq_outcome(strings_view(args@)), |v: Invocation| v@),
{
    if args.len() != 4 {
        return Err(String::from_str("nearest-k-l2-sq expects query, candidates, and k"));
    }
    assert(strings_view(args@)[1] == args@[1]@);
    assert(strings_view(args@)[2] == args@[2]@);
    assert(strings_view(args@)[3] == args@[3]@);
    let query = parse_vector(args[1].as_str())?;
    let candidates = parse_vector_set(args[2].as_str())?;
    let k = parse_usize(args[3].as_str(), "k")?;
    Ok(Invocation::NearestKL2Sq { query, candidates, k })
}

/// What `run_cosine_all` gives.
pub open spec fn cosine_all_outcome(args: Seq<Seq<char>>) -> Result<Command, Seq<char>> {
    match query_outcome(args, "cosine-all"@) {
        Ok((query, candidates)) => Ok(Command::CosineAll { query, candidates }),
        Err(e) => Err(e),
    }
}

/// The `cosine-all` command: a query and a candidate set.
pub fn run_cosine_all(args: &[String]) -> (res: Result<Invocation, String>)
    ensures
        matches_outcome(res, cosine_all_outcome(strings_view(args@)), |v: Invocation| v@),
{
    let (query, candidates) = parse_query_and_candidates(args, "cosine-all")?;
    Ok(Invocation::CosineAll { query, candidates })
}

/// What `run_nearest_cosine` gives.
pub open spec fn nearest_cosine_outcome(args: Seq<Seq<char>>) -> Result<Command, Seq<char>> {
    match query_outcome(args, "nearest-cosine"@) {
        Ok((query, candidates)) => Ok(Command::NearestCosine { query, candidates }),
        Err(e) => Err(e),
    }
}

/// The `nearest-cosine` command: a query and a candidate set.
pub fn run_nearest_cosine(args: &[String]) -> (res: Result<Invocation, String>)
    ensures
        matches_outcome(res, nearest_cosine_outcome(strings_view(args@)), |v: Invocation| v@),
{
    let (query, candidates) = parse_query_and_candidates(args, "nearest-cosine")?;
    Ok(Invocation::NearestCosine { query, candidates })
}

/// What `run_knn_l2_sq` gives.
pub open spec fn knn_l2_sq_outcome(args: Seq<Seq<char>>) -> Result<Command, Seq<char>> {
    if args.len() != 5 {
        Err("knn-l2-sq expects query, samples, labels, and k"@)
    } else {
        match vector_outcome(args[1]) {
            Err(e) => Err(e),
            Ok(query) => match vector_set_outcome(args[2]) {
                Err(e) => Err(e),
                Ok(samples) => match labels_outcome(args[3]) {
                    Err(e) => Err(e),
                    Ok(labels) => match usize_outcome(args[4], "k"@) {
                        Err(e) => Err(e),
                        Ok(k) => Ok(Command::KnnL2Sq { query, samples, labels, k }),
                    },
                },
            },
        }
    }
}

/// The `knn-l2-sq` command: a query, labelled samples and `k`.
pub fn run_knn_l2_sq(args: &[String]) -> (res: Result<Invocation, String>)
    ensures
        matches_outcome(res, knn_l2_sq_outcome(strings_view(args@)), |v: Invocation| v@),
{
    if args.len() != 5 {
        return Err(String::from_str("knn-l2-sq expects query, samples, labels, and k"));
    }
    assert(strings_view(args@)[1] == args@[1]@);
    assert(strings_view(args@)[2] == args@[2]@);
    assert(strings_view(args@)[3] == args@[3]@);
    assert(strings_view(args@)[4] == args@[4]@);
    let query = parse_vector(args[1].as_str())?;
    let samples = parse_vector_set(args[2].as_str())?;
    let labels = parse_labels(args[3].as_str())?;
    let k = parse_usize(args[4].as_str(), "k")?;
    Ok(Invocation::KnnL2Sq { query, samples, labels, k })
}

/// What `run` gives for the command line `args` (without the program name):
/// the command and its operands, or the error the tool reports.
pub open spec fn run_outcome(args: Seq<Seq<char>>) -> Result<Command, Seq<char>> {
    if args.len() == 0 {
        Err("expected a command"@)
    } else {
        let command = args[0];
        if command == "dot"@ {
            match binary_outcome(args) {
                Ok((a, b)) => Ok(Command::Dot { a, b }),
                Err(e) => Err(e),
            }
        } else if command == "l2-sq"@ {
            match binary_outcome(args) {
                Ok((a, b)) => Ok(Command::L2Sq { a, b }),
                Err(e) => Err(e),
            }
        } else if command == "cosine"@ {
            cosine_outcome(args)
        } else if command == "norm"@ {
            norm_outcome(args)
        } else if command == "normalize"@ {
            normalize_outcome(args)
        } else if command == "l2-sq-all"@ {
            l2_sq_all_outcome(args)
        } else if command == "nearest-l2-sq"@ {
            nearest_l2_sq_outcome(args)
        } else if command == "nearest-k-l2-sq"@ {
            nearest_k_l2_sq_outcome(args)
        } else if command == "cosine-all"@ {
            cosine_all_outcome(args)
        } else if command == "nearest-cosine"@ {
            nearest_cosine_outcome(args)
        } else if command == "knn-l2-sq"@ {
            knn_l2_sq_outcome(args)
        } else {
            Err("unknown command: "@ + command)
        }
    }
}

/// Whether `arg` is the word `name`.
fn is_word(arg: &String, name: &str) -> (same: bool)
    ensures
        same == (arg@ == name@),
{
    let word = String::from_str(name);
    arg.eq(&word)
}

/// Reads a command line (without the program name): which kernel to run on
/// which operands, or the error to report about the arguments.
pub fn run(args: Vec<String>) -> (res: Result<Invocation, String>)
    ensures
        matches_outcome(res, run_outcome(strings_view(args@)), |v: Invocation| v@),
{
    if args.len() == 0 {
        return Err(String::from_str("expected a command"));
    }
    let command = &args[0];
    assert(strings_view(args@)[0] == command@);
    if is_word(command, "dot") {
        let (a, b) = parse_binary_vectors(args.as_slice())?;
        Ok(Invocation::Dot { a, b })
    } else if is_word(command, "l2-sq") {
        let (a, b) = parse_binary_vectors(args.as_slice())?;
        Ok(Invocation::L2Sq { a, b })
    } else if is_word(command, "cosine") {
        run_cosine(args.as_slice())
    } else if is_word(command, "norm") {
        run_norm(args.as_slice())
    } else if is_word(command, "normalize") {
        run_normalize(args.as_slice())
    } else if is_word(command, "l2-sq-all") {
        run_l2_sq_all(args.as_slice())
    } else if is_word(command, "nearest-l2-sq") {
        run_nearest_l2_sq(args.as_slice())
    } else if is_word(command, "nearest-k-l2-sq") {
        run_nearest_k_l2_sq(args.as_slice())
    } else if is_word(command, "cosine-all") {
        run_cosine_all(args.as_slice())
    } else if is_word(command, "nearest-cosine") {
        run_nearest_cosine(args.as_slice())
    } else if is_word(command, "knn-l2-sq") {
        run_knn_l2_sq(args.as_slice())
    } else {
        let mut message = String::from_str("unknown command: ");
        message.append(command.as_str());
        Err(message)
    }
}

/// The usage text printed after an error.
pub fn usage() -> (text: &'static str)
    ensures
        text@ == "usage:
  cargo run -p cli -- dot <a,b,c> <x,y,z>
  cargo run -p cli -- l2-sq <a,b,c> <x,y,z>
  cargo run -p cli -- cosine <a,b,c> <x,y,z>
  cargo run -p cli -- norm <a,b,c>
  cargo run -p cli -- normalize <a,b,c>
  cargo run -p cli -- l2-sq-all <query> <candidate;candidate>
  cargo run -p cli -- nearest-l2-sq <query> <candidate;candidate>
  cargo run -p cli -- nearest-k-l2-sq <query> <candidate;candidate> <k>
  cargo run -p cli -- cosine-all <query> <candidate;candidate>
  cargo run -p cli -- nearest-cosine <query> <candidate;candidate>
  cargo run -p cli -- knn-l2-sq <query> <sample;sample> <label,label> <k>"@,
{
    "usage:
  cargo run -p cli -- dot <a,b,c> <x,y,z>
  cargo run -p cli -- l2-sq <a,b,c> <x,y,z>
  cargo run -p cli -- cosine <a,b,c> <x,y,z>
  cargo run -p cli -- norm <a,b,c>
  cargo run -p cli -- normalize <a,b,c>
  cargo run -p cli -- l2-sq-all <query> <candidate;candidate>
  cargo run -p cli -- nearest-l2-sq <query> <candidate;candidate>
  cargo run -p cli -- nearest-k-l2-sq <query> <candidate;candidate> <k>
  cargo run -p cli -- cosine-all <query> <candidate;candidate>
  cargo run -p cli -- nearest-cosine <query> <candidate;candidate>
  cargo run -p cli -- knn-l2-sq <query> <sample;sample> <label,label> <k>"
}

} // verus!
