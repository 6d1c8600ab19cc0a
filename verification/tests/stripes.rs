use stripes::{Striped, Stripes};

#[test]
fn test_stripes() {
    let x = [1, 2, 3, 4, 5, 6, 7, 8, 9u8];
    let mut s = x.stripes(3);
    let first = s.next().unwrap().collect();
    assert_eq!(first[2], 7);
    let last = s.nth(1).unwrap().collect();
    assert_eq!(last[0], 3);
    assert_eq!(last[1], 6);
    assert_eq!(last[2], 9);

    let mut f = Stripes::from(&x, 4);
    let mut t = f.nth(2).unwrap();
    assert_eq!(t.nth(1), Some(7));
}

#[test]
fn three_columns_of_nine() {
    let x = [1, 2, 3, 4, 5, 6, 7, 8, 9u8];
    let mut s = x.stripes(3);
    assert_eq!(s.next().unwrap().collect(), vec![1, 4, 7]);
    assert_eq!(s.next().unwrap().collect(), vec![2, 5, 8]);
    assert_eq!(s.next().unwrap().collect(), vec![3, 6, 9]);
    assert!(s.next().is_none());
    assert!(s.next().is_none());
}

#[test]
fn outer_skip_matches_stepwise() {
    let x = [1, 2, 3, 4, 5, 6, 7, 8, 9u8];
    let mut stepwise = x.stripes(3);
    stepwise.next();
    stepwise.next();
    let by_steps = stepwise.next().unwrap().collect();
    let mut skipping = x.stripes(3);
    let direct = skipping.nth(2).unwrap().collect();
    assert_eq!(direct, by_steps);
    assert_eq!(direct, vec![3, 6, 9]);
}

#[test]
fn inner_skip_matches_stepwise() {
    let x = [1, 2, 3, 4, 5, 6, 7, 8, 9u8];
    let mut it = x.stripes(3);
    let mut stepwise = it.next().unwrap();
    stepwise.next();
    stepwise.next();
    let by_steps = stepwise.next();
    let mut it2 = x.stripes(3);
    let mut skipping = it2.next().unwrap();
    assert_eq!(skipping.nth(2), by_steps);
    assert_eq!(by_steps, Some(7));
}

#[test]
fn columns_cover_source_exactly_once() {
    let src = [10u8, 20, 30, 40, 50, 60, 70];
    for w in 1..10usize {
        let mut cols: Vec<Vec<u8>> = Vec::new();
        let mut it = src.stripes(w);
        while let Some(c) = it.next() {
            cols.push(c.collect());
        }
        assert_eq!(cols.len(), w.min(src.len()));
        let mut rebuilt = vec![0u8; src.len()];
        let mut seen = vec![0u32; src.len()];
        for (i, col) in cols.iter().enumerate() {
            for (k, &v) in col.iter().enumerate() {
                let j = i + k * w;
                assert!(j < src.len());
                rebuilt[j] = v;
                seen[j] += 1;
            }
        }
        assert!(seen.iter().all(|&c| c == 1));
        assert_eq!(rebuilt, src.to_vec());
    }
}

#[test]
fn empty_source_yields_no_columns() {
    let x: [u8; 0] = [];
    for w in [0usize, 1, 3, 100] {
        let mut s = Stripes::from(&x, w);
        assert!(s.next().is_none());
        assert!(s.next().is_none());
        assert!(s.nth(5).is_none());
    }
}

#[test]
fn width_beyond_length_gives_singleton_columns() {
    let x = [1, 2, 3, 4, 5, 6, 7, 8, 9u8];
    let mut s = x.stripes(20);
    for i in 0..9usize {
        let col = s.next().unwrap().collect();
        assert_eq!(col, vec![x[i]]);
    }
    assert!(s.next().is_none());
}

#[test]
fn zero_width_yields_nothing_and_terminates() {
    let x = [1, 2, 3u8];
    let mut s = x.stripes(0);
    for _ in 0..10 {
        assert!(s.next().is_none());
    }
    let mut s2 = Stripes::from(&x, 0);
    assert!(s2.nth(0).is_none());
    assert!(s2.nth(7).is_none());
}

#[test]
fn uneven_division_keeps_tail() {
    let x = [1, 2, 3, 4, 5u8];
    let mut s = x.stripes(2);
    assert_eq!(s.next().unwrap().collect(), vec![1, 3, 5]);
    assert_eq!(s.next().unwrap().collect(), vec![2, 4]);
    assert!(s.next().is_none());
}

#[test]
fn inner_skip_past_end_is_exhausted() {
    let x = [1, 2, 3, 4, 5, 6, 7, 8, 9u8];
    let mut it = x.stripes(3);
    let mut col = it.next().unwrap();
    assert_eq!(col.nth(5), None);
    assert_eq!(col.next(), None);
}

#[test]
fn outer_skip_past_end_is_exhausted() {
    let x = [1, 2, 3u8];
    let mut s = x.stripes(2);
    assert!(s.nth(5).is_none());
    assert!(s.next().is_none());
}

#[test]
fn columns_are_independent() {
    let x = [1, 2, 3, 4, 5, 6u8];
    let mut s = x.stripes(2);
    let c0 = s.next().unwrap();
    let c1 = s.next().unwrap();
    assert_eq!(c1.collect(), vec![2, 4, 6]);
    assert_eq!(c0.collect(), vec![1, 3, 5]);
}

#[test]
fn extension_matches_constructor() {
    let x = [5, 6, 7, 8u8];
    let mut a = x.stripes(2);
    let mut b = Stripes::from(&x, 2);
    assert_eq!(a.next().unwrap().collect(), b.next().unwrap().collect());
    assert_eq!(a.next().unwrap().collect(), b.next().unwrap().collect());
    assert!(a.next().is_none() && b.next().is_none());
}
