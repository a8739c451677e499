use std2::macros::IntoResult;
use std2::{unwrap, unwrap_or};

#[test]
fn into_result_passes_result_through() {
    assert_eq!(IntoResult::into_result(Ok::<u8, &str>(7)), Ok(7));
    assert_eq!(IntoResult::into_result(Err::<u8, &str>("bad")), Err("bad"));
}

#[test]
fn into_result_maps_option() {
    assert_eq!(IntoResult::into_result(Some(7u8)), Ok(7));
    assert_eq!(IntoResult::into_result(None::<u8>), Err(()));
}

#[test]
fn unwrap_success_skips_handler() {
    let r = unwrap(Ok::<u8, &str>(5), |_| -> u8 { unreachable!() });
    assert_eq!(r, 5);
    let r = unwrap(Some(5u8), |_| -> u8 { unreachable!() });
    assert_eq!(r, 5);
}

#[test]
fn unwrap_success_value() {
    assert_eq!(unwrap(Ok::<i32, &str>(5), |_| 0), 5);
}

#[test]
fn unwrap_failure_binds_error() {
    let mut seen = None;
    let r = unwrap(Err::<i32, &str>("x"), |e| {
        seen = Some(e);
        0
    });
    assert_eq!(r, 0);
    assert_eq!(seen, Some("x"));
}

#[test]
fn unwrap_absent_runs_handler() {
    let mut seen = None;
    let r = unwrap(None::<i32>, |e| {
        seen = Some(e);
        99
    });
    assert_eq!(r, 99);
    assert_eq!(seen, Some(()));
}

#[test]
fn unwrap_or_matches_constant_handler() {
    let inputs: Vec<Result<i32, &str>> = vec![Ok(1), Err("e"), Ok(-4), Err("f")];
    for x in inputs {
        assert_eq!(unwrap_or(x, 42), unwrap(x, |_| 42));
    }
    assert_eq!(unwrap_or(Some(3), 42), 3);
    assert_eq!(unwrap_or(None::<i32>, 42), 42);
}

fn first_plus_two(res: Result<u8, &'static str>) -> u8 {
    let x = match IntoResult::into_result(res) {
        Ok(x) => x,
        Err(_) => {
            return 0;
        }
    };
    x + 2
}

#[test]
fn early_return_from_handler_leaves_enclosing_fn() {
    assert_eq!(first_plus_two(Ok(2)), 4);
    assert_eq!(first_plus_two(Err("oops")), 0);
}

#[test]
fn continue_and_break_in_handler_reach_enclosing_loop() {
    let items = vec![Some(1), None, Some(3), None, Some(5), Some(6)];
    let mut sum = 0;
    let mut stopped_at = None;
    for (i, item) in items.into_iter().enumerate() {
        let v = match IntoResult::into_result(item) {
            Ok(v) => v,
            Err(_) => {
                if i < 3 {
                    continue;
                }
                stopped_at = Some(i);
                break;
            }
        };
        sum += v;
    }
    assert_eq!(sum, 4);
    assert_eq!(stopped_at, Some(3));
}
