use resiter::unit::{FoldUnit, FromUnit, OutcomeIter, Unit};

#[test]
fn empty_yields_success_fail_fast() {
    let mut it: OutcomeIter<(), &str> = OutcomeIter::new(vec![]);
    assert_eq!(it.fail_fast(), Ok(()));
    assert_eq!(it.remaining(), 0);
}

#[test]
fn empty_yields_success_last_err() {
    let mut it: OutcomeIter<(), &str> = OutcomeIter::new(vec![]);
    assert_eq!(it.last_err(), Ok(()));
    assert_eq!(it.remaining(), 0);
}

#[test]
fn all_success_fail_fast() {
    let mut it: OutcomeIter<(), &str> = OutcomeIter::new(vec![Ok(()), Ok(()), Ok(())]);
    assert_eq!(it.fail_fast(), Ok(()));
    assert_eq!(it.remaining(), 0);
}

#[test]
fn all_success_last_err() {
    let mut it: OutcomeIter<(), &str> = OutcomeIter::new(vec![Ok(()), Ok(()), Ok(())]);
    assert_eq!(it.last_err(), Ok(()));
    assert_eq!(it.remaining(), 0);
}

#[test]
fn all_success_discards_payloads() {
    // The success payloads stand for Success(1), Success(2), Success(3): the
    // fold replaces them by the one canonical unit value, whatever they were.
    let payloads = [1, 2, 3];
    let mut outcomes: Vec<Result<Unit, &str>> = Vec::new();
    for _p in payloads.iter() {
        outcomes.push(Ok(Unit));
    }
    let mut it = OutcomeIter::new(outcomes.clone());
    assert_eq!(it.fail_fast(), Ok(Unit));
    let mut it = OutcomeIter::new(outcomes);
    assert_eq!(it.last_err(), Ok(Unit));
}

#[test]
fn fail_fast_reports_first_error() {
    let values: Vec<Result<(), &str>> = vec![Ok(()), Ok(()), Err("e1"), Ok(()), Err("e2")];
    let mut it = OutcomeIter::new(values);
    assert_eq!(it.fail_fast(), Err("e1"));
}

#[test]
fn fail_fast_short_circuits() {
    let values: Vec<Result<(), &str>> = vec![Ok(()), Ok(()), Err("e1"), Ok(()), Err("e2")];
    let mut it = OutcomeIter::new(values);
    assert_eq!(it.fail_fast(), Err("e1"));
    // The two outcomes after the first failure were never consumed.
    assert_eq!(it.remaining(), 2);
    // A further pass picks up exactly where the first stopped.
    assert_eq!(it.fail_fast(), Err("e2"));
    assert_eq!(it.fail_fast(), Ok(()));
    assert_eq!(it.remaining(), 0);
}

#[test]
fn last_err_reports_last_error() {
    let values: Vec<Result<(), &str>> = vec![Ok(()), Ok(()), Err("e1"), Ok(()), Err("e2")];
    let mut it = OutcomeIter::new(values);
    assert_eq!(it.last_err(), Err("e2"));
}

#[test]
fn last_err_drains_sequence() {
    let values: Vec<Result<(), &str>> = vec![Ok(()), Ok(()), Err("e1"), Ok(()), Err("e2")];
    let mut it = OutcomeIter::new(values);
    assert_eq!(it.last_err(), Err("e2"));
    assert_eq!(it.remaining(), 0);
}

#[test]
fn last_err_processes_every_item() {
    // A per-item side effect runs while each outcome is produced; the fold
    // then sees every item, so the accumulator holds every success payload,
    // including the one after the first failure.
    let raw: Vec<Result<i32, &str>> = vec![Ok(1), Ok(2), Err("e1"), Ok(4), Err("e2")];
    let mut acc: Vec<i32> = Vec::new();
    let mut outcomes: Vec<Result<(), &str>> = Vec::new();
    for item in raw.into_iter() {
        match item {
            Ok(n) => {
                acc.push(n);
                outcomes.push(Ok(()));
            }
            Err(e) => outcomes.push(Err(e)),
        }
    }
    let mut it = OutcomeIter::new(outcomes);
    assert_eq!(it.last_err(), Err("e2"));
    assert_eq!(acc, vec![1, 2, 4]);
}

#[test]
fn parse_errors_keep_last() {
    // Parsing "1", "2", "foo", "4", "5" as numbers: every value is parsed,
    // the successes accumulate, and the one failure is reported.
    let values = ["1", "2", "foo", "4", "5"];
    let mut acc: Vec<usize> = Vec::new();
    let mut outcomes: Vec<Result<(), &str>> = Vec::new();
    for v in values.iter() {
        match v.parse::<usize>() {
            Ok(n) => {
                acc.push(n);
                outcomes.push(Ok(()));
            }
            Err(_) => outcomes.push(Err(v)),
        }
    }
    let mut it = OutcomeIter::new(outcomes);
    assert_eq!(it.last_err(), Err("foo"));
    assert_eq!(acc, vec![1, 2, 4, 5]);
}

#[test]
fn single_failure_policies_agree() {
    let values: Vec<Result<(), &str>> = vec![Ok(()), Err("only"), Ok(())];
    let mut it = OutcomeIter::new(values.clone());
    let first = it.fail_fast();
    let mut it = OutcomeIter::new(values);
    let last = it.last_err();
    assert_eq!(first, Err("only"));
    assert_eq!(first, last);
}

#[test]
fn unit_struct_payload() {
    let values: Vec<Result<Unit, &str>> =
        vec![Ok(Unit), Ok(Unit), Err("error1"), Ok(Unit), Err("error2")];
    let mut it = OutcomeIter::new(values.clone());
    assert_eq!(it.fail_fast(), Err("error1"));
    let mut it = OutcomeIter::new(values);
    assert_eq!(it.last_err(), Err("error2"));
}

#[test]
fn canonical_unit_values() {
    assert_eq!(<() as FromUnit>::from_unit(), ());
    assert_eq!(<Unit as FromUnit>::from_unit(), Unit);
}

#[test]
fn remaining_counts_pending() {
    let values: Vec<Result<(), &str>> = vec![Ok(()), Err("e"), Ok(())];
    let it = OutcomeIter::new(values);
    assert_eq!(it.remaining(), 3);
}
