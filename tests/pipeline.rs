use bulk_translate::{BulkTranslated, Pipeline, PipelineError};

/// One round as the test client saw it: its depth and the lines of each chunk.
type Seen = (u32, Vec<Vec<String>>);

fn lines(texts: &[&str]) -> Vec<String> {
    texts.iter().map(|t| t.to_string()).collect()
}

fn upper(v: &[String]) -> Vec<String> {
    v.iter().map(|l| l.to_uppercase()).collect()
}

/// Runs the pipeline against a simulated client. `answer` gives the translated lines of
/// a chunk from its lines and depth; `reverse` hands the results back last first.
fn run<F>(
    input: Vec<String>,
    chunk_size: usize,
    reverse: bool,
    mut answer: F,
) -> (Result<Vec<String>, PipelineError>, Vec<Seen>)
where
    F: FnMut(&[String], u32) -> Vec<String>,
{
    let mut pipeline = Pipeline::new(input, chunk_size);
    let mut seen: Vec<Seen> = Vec::new();
    while let Some(round) = pipeline.next_round() {
        let mut results: Vec<BulkTranslated<i32>> = Vec::new();
        let mut sent: Vec<Vec<String>> = Vec::new();
        for chunk in round.chunks {
            sent.push(chunk.lines.clone());
            let translated = answer(&chunk.lines, round.depth);
            results.push(BulkTranslated {
                number: chunk.number,
                original_lines: chunk.lines,
                translated_lines: translated,
                stats: chunk.number * 10,
            });
        }
        seen.push((round.depth, sent));
        if reverse {
            results.reverse();
        }
        match pipeline.complete_round(results) {
            Ok(stats) => {
                let expected: Vec<i32> = (1..=stats.len() as i32).map(|n| n * 10).collect();
                assert_eq!(stats, expected);
            }
            Err(e) => return (Err(e), seen),
        }
    }
    (Ok(pipeline.into_output()), seen)
}

#[test]
fn output_has_one_line_per_input_line() {
    let input = lines(&["a", "b", "c", "d", "e", "f", "g"]);
    let (out, seen) = run(input.clone(), 3, false, |l, _| upper(l));
    assert_eq!(out.unwrap(), upper(&input));
    assert_eq!(seen.len(), 1);
    assert_eq!(seen[0].1.len(), 3);
}

#[test]
fn empty_input_gives_empty_output_without_requests() {
    let mut calls = 0;
    let (out, seen) = run(Vec::new(), 4, false, |l, _| {
        calls += 1;
        upper(l)
    });
    assert_eq!(out.unwrap(), Vec::<String>::new());
    assert!(seen.is_empty());
    assert_eq!(calls, 0);
}

#[test]
fn completion_order_does_not_change_output_order() {
    let input = lines(&["one", "two", "three", "four", "five", "six"]);
    let (forward, _) = run(input.clone(), 1, false, |l, _| upper(l));
    let (backward, _) = run(input.clone(), 1, true, |l, _| upper(l));
    assert_eq!(backward.unwrap(), upper(&input));
    assert_eq!(forward.unwrap(), upper(&input));
}

#[test]
fn shuffled_results_with_retry_keep_order() {
    let input = lines(&["p", "q", "r", "s", "t"]);
    let (out, seen) = run(input.clone(), 2, true, |l, depth| {
        if depth == 0 && l[0] == "r" {
            vec!["R".to_string()]
        } else {
            upper(l)
        }
    });
    assert_eq!(out.unwrap(), upper(&input));
    assert_eq!(seen.len(), 2);
}

#[test]
fn one_line_short_is_retried_once_line_by_line() {
    let input = lines(&["x1", "x2", "x3", "x4"]);
    let (out, seen) = run(input.clone(), 4, false, |l, depth| {
        if depth == 0 {
            upper(&l[..l.len() - 1])
        } else {
            upper(l)
        }
    });
    assert_eq!(out.unwrap(), upper(&input));
    assert_eq!(seen.len(), 2);
    assert_eq!(seen[1].0, 1);
    assert_eq!(
        seen[1].1,
        vec![lines(&["x1"]), lines(&["x2"]), lines(&["x3"]), lines(&["x4"])]
    );
}

#[test]
fn persistent_mismatch_ends_in_retry_exhausted() {
    let input = lines(&["stuck", "fine"]);
    let (out, seen) = run(input, 2, false, |l, _| {
        if l.iter().any(|x| x == "stuck") {
            Vec::new()
        } else {
            upper(l)
        }
    });
    assert_eq!(
        out,
        Err(PipelineError::RetryExhausted { number: 1, expected: 1, received: 0 })
    );
    let depths: Vec<u32> = seen.iter().map(|s| s.0).collect();
    assert_eq!(depths, vec![0, 1, 2, 3, 4, 5]);
}

#[test]
fn mismatch_recovered_at_the_deepest_level() {
    let input = lines(&["late"]);
    let (out, seen) = run(input.clone(), 1, false, |l, depth| {
        if depth < 5 {
            Vec::new()
        } else {
            upper(l)
        }
    });
    assert_eq!(out.unwrap(), upper(&input));
    assert_eq!(seen.len(), 6);
}

#[test]
fn five_lines_in_pairs_with_second_chunk_short() {
    let input = lines(&["l1", "l2", "l3", "l4", "l5"]);
    let (out, seen) = run(input.clone(), 2, false, |l, depth| {
        if depth == 0 && l[0] == "l3" {
            upper(&l[..1])
        } else {
            upper(l)
        }
    });
    assert_eq!(out.unwrap(), upper(&input));
    assert_eq!(seen.len(), 2);
    assert_eq!(seen[0].0, 0);
    assert_eq!(
        seen[0].1,
        vec![lines(&["l1", "l2"]), lines(&["l3", "l4"]), lines(&["l5"])]
    );
    assert_eq!(seen[1].0, 1);
    assert_eq!(seen[1].1, vec![lines(&["l3"]), lines(&["l4"])]);
}

#[test]
fn extra_line_is_also_a_mismatch() {
    let input = lines(&["only"]);
    let (out, seen) = run(input.clone(), 1, false, |l, depth| {
        if depth == 0 {
            lines(&["A", "B"])
        } else {
            upper(l)
        }
    });
    assert_eq!(out.unwrap(), upper(&input));
    assert_eq!(seen.len(), 2);
}

fn started(input: Vec<String>, size: usize) -> (Pipeline, Vec<bulk_translate::Chunk>) {
    let mut p = Pipeline::new(input, size);
    let round = p.next_round().unwrap();
    (p, round.chunks)
}

fn answer_all(chunks: Vec<bulk_translate::Chunk>) -> Vec<BulkTranslated<()>> {
    chunks
        .into_iter()
        .map(|c| BulkTranslated {
            number: c.number,
            translated_lines: upper(&c.lines),
            original_lines: c.lines,
            stats: (),
        })
        .collect()
}

#[test]
fn duplicate_number_is_rejected() {
    let (mut p, chunks) = started(lines(&["a", "b", "c"]), 1);
    let mut results = answer_all(chunks);
    results[2].number = 1;
    assert_eq!(p.complete_round(results), Err(PipelineError::UnexpectedResults));
}

#[test]
fn missing_result_is_rejected() {
    let (mut p, chunks) = started(lines(&["a", "b", "c"]), 1);
    let mut results = answer_all(chunks);
    results.pop();
    assert_eq!(p.complete_round(results), Err(PipelineError::UnexpectedResults));
}

#[test]
fn number_out_of_range_is_rejected() {
    let (mut p, chunks) = started(lines(&["a", "b"]), 1);
    let mut results = answer_all(chunks);
    results[0].number = 7;
    assert_eq!(p.complete_round(results), Err(PipelineError::UnexpectedResults));
}

#[test]
fn foreign_original_lines_are_rejected() {
    let (mut p, chunks) = started(lines(&["a", "b"]), 2);
    let mut results = answer_all(chunks);
    results[0].original_lines = lines(&["a", "z"]);
    assert_eq!(p.complete_round(results), Err(PipelineError::UnexpectedResults));
}

#[test]
fn rejected_round_can_be_answered_again() {
    let (mut p, chunks) = started(lines(&["a", "b"]), 1);
    let copy: Vec<(i32, Vec<String>)> = chunks.iter().map(|c| (c.number, c.lines.clone())).collect();
    let mut results = answer_all(chunks);
    results[1].number = 1;
    assert!(p.complete_round(results).is_err());
    let again: Vec<BulkTranslated<()>> = copy
        .into_iter()
        .map(|(number, l)| BulkTranslated {
            number,
            translated_lines: upper(&l),
            original_lines: l,
            stats: (),
        })
        .collect();
    assert_eq!(p.complete_round(again), Ok(vec![(), ()]));
    assert!(p.next_round().is_none());
    assert_eq!(p.into_output(), lines(&["A", "B"]));
}
