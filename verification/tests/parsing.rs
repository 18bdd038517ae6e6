use garbage_sim::model::{GKind, Garbage, Input};
use garbage_sim::parse::{format_input, parse_i32s, parse_input, parse_output};

#[test]
fn parse_ints_basic() {
    let v = parse_i32s(b" 12  -3\n+4\t0 ").expect("four tokens");
    assert_eq!(v, vec![12, -3, 4, 0]);
}

#[test]
fn parse_ints_empty_text() {
    let v = parse_i32s(b"   \n ").expect("no tokens");
    assert_eq!(v.len(), 0);
}

#[test]
fn parse_ints_leading_zeros() {
    let v = parse_i32s(b"007 -000 00000000012").expect("tokens");
    assert_eq!(v, vec![7, 0, 12]);
}

#[test]
fn parse_ints_i32_limits() {
    let v = parse_i32s(b"2147483647 -2147483648").expect("limits fit");
    assert_eq!(v, vec![i32::MAX, i32::MIN]);
    assert!(parse_i32s(b"2147483648").is_none());
    assert!(parse_i32s(b"-2147483649").is_none());
    assert!(parse_i32s(b"99999999999999999999").is_none());
}

#[test]
fn parse_ints_rejects_junk() {
    assert!(parse_i32s(b"12 x 3").is_none());
    assert!(parse_i32s(b"-").is_none());
    assert!(parse_i32s(b"1.5").is_none());
    assert!(parse_i32s(b"12a").is_none());
}

#[test]
fn parse_output_shapes() {
    assert!(parse_output(b"1 2 3 4 5 6 7").is_none());
    assert!(parse_output(b"1 2 3 4 5 6 7 8 9").is_none());
    let out = parse_output(b"1 2 3 4 5 6 7 8").expect("one frame");
    assert_eq!(out.q, 0);
    assert_eq!(out.init, [1, 2, 3, 4, 5, 6, 7, 8]);
    let out = parse_output(b"0 0 0 0 0 0 0 0\n1 1 1 1 2 2 2 2").expect("two frames");
    assert_eq!(out.q, 1);
    assert_eq!(out.steps[0].0, [1, 1, 1, 1, 2, 2, 2, 2]);
}

#[test]
fn parse_input_small_scenario() {
    let inp = parse_input(b"1 1 1\n10 20\n30 40\n50 60\n").expect("scenario");
    assert_eq!((inp.X, inp.Y, inp.Z), (1, 1, 1));
    assert_eq!(inp.garbage.len(), 3);
    assert_eq!((inp.garbage[0].x, inp.garbage[0].y), (10, 20));
    assert_eq!(inp.garbage[0].kind, GKind::Burn);
    assert_eq!(inp.garbage[1].kind, GKind::NonBurn);
    assert_eq!(inp.garbage[2].kind, GKind::Recycle);
}

#[test]
fn parse_input_rejects_short_or_negative() {
    assert!(parse_input(b"2 0 0\n1 2\n").is_none());
    assert!(parse_input(b"-1 0 0\n").is_none());
    assert!(parse_input(b"1 0\n").is_none());
}

#[test]
fn format_then_parse_is_identity() {
    let garbage = vec![
        Garbage { x: 1, y: 999_999, kind: GKind::Burn },
        Garbage { x: 500_000, y: 500_000, kind: GKind::NonBurn },
        Garbage { x: 123_456, y: 7, kind: GKind::Recycle },
        Garbage { x: 9, y: 10, kind: GKind::Recycle },
    ];
    let inp = Input { X: 1, Y: 1, Z: 2, garbage };
    let text = format_input(&inp);
    let back = parse_input(&text).expect("rendered text re-parses");
    assert_eq!((back.X, back.Y, back.Z), (inp.X, inp.Y, inp.Z));
    assert_eq!(back.garbage.len(), inp.garbage.len());
    for (a, b) in inp.garbage.iter().zip(back.garbage.iter()) {
        assert_eq!((a.x, a.y, a.kind), (b.x, b.y, b.kind));
    }
}

#[test]
fn format_matches_text_layout() {
    let inp = Input {
        X: 1,
        Y: 0,
        Z: 0,
        garbage: vec![Garbage { x: 12, y: 34, kind: GKind::Burn }],
    };
    let text = format_input(&inp);
    assert_eq!(String::from_utf8(text).unwrap(), "1 0 0\n12 34\n");
}
