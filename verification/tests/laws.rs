use fx_engine::b64::{decode, encode};
use fx_engine::outline::{join, simplify};

#[test]
fn simplifying_twice_is_simplifying_once() {
    let runs = [
        vec![(0, 0), (1, 0), (2, 0), (3, 0), (3, 1), (3, 2)],
        vec![(0, 0), (1, 1), (2, 2), (2, 3), (1, 3), (0, 3), (0, 0)],
        vec![(0, 0), (1, 0), (0, 0), (1, 0)],
        vec![(4, 4)],
    ];
    for points in runs {
        let once = simplify(points);
        assert_eq!(simplify(once.clone()), once);
    }
}

#[test]
fn decoding_skips_what_is_not_a_digit() {
    assert_eq!(decode("Zm9v\nYm Fy=="), decode("Zm9vYmFy"));
    assert_eq!(decode("Zm9vYmFy"), b"foobar".to_vec());
    assert_eq!(decode("Z,g=\r\n="), decode("Zg"));
}

#[test]
fn a_canonical_text_survives_decoding_and_encoding() {
    for text in ["Zg==", "Zm8=", "Zm9v", "Zm9vYmFy", ""] {
        assert_eq!(encode(&decode(text)), text);
    }
}

#[test]
fn the_first_walk_starts_at_an_open_end() {
    // A square with a tail: (1, 1) has three segments and (2, 1) one.
    let segments = vec![
        ((0, 0), (1, 0)),
        ((1, 0), (1, 1)),
        ((1, 1), (0, 1)),
        ((0, 1), (0, 0)),
        ((1, 1), (2, 1)),
    ];
    let chains = join(&segments, 2, 1);
    let (first, _) = &chains[0];
    assert!(first[0] == (1, 1) || first[0] == (2, 1), "{chains:?}");
    // The tail comes back as the one open chain.
    let open: Vec<_> = chains.iter().filter(|(_, closed)| !*closed).collect();
    assert_eq!(open.len(), 1, "{chains:?}");
    let ends = [open[0].0[0], *open[0].0.last().unwrap()];
    assert!(ends.contains(&(1, 1)) && ends.contains(&(2, 1)), "{chains:?}");
}

#[test]
fn simplify_takes_any_coordinates() {
    let far = vec![(i64::MIN, 0), (0, 0), (i64::MAX, 0)];
    assert_eq!(simplify(far), vec![(i64::MIN, 0), (i64::MAX, 0)]);
    let back = vec![(i64::MAX, i64::MAX), (i64::MIN, i64::MIN), (i64::MAX, i64::MAX)];
    assert_eq!(simplify(back.clone()), back);
    let turn = vec![(i64::MIN, i64::MIN), (i64::MAX, i64::MIN), (i64::MAX, i64::MAX)];
    assert_eq!(simplify(turn.clone()), turn);
}
