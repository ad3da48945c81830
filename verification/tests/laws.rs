use reed_solomon_novelpoly::afft::{afft, inverse_afft};
use reed_solomon_novelpoly::decode::eval_error_polynomial;
use reed_solomon_novelpoly::derivative::formal_derivative;
use reed_solomon_novelpoly::encode::encode_high;
use reed_solomon_novelpoly::field::{Additive, Field, Logarithm};
use reed_solomon_novelpoly::tables::FieldTables;

fn product(tables: &FieldTables, a: u16, b: u16) -> u16 {
    if b == 0 {
        0
    } else {
        tables.mul(Additive(a), tables.to_multiplier(Additive(b))).0
    }
}

fn inverse(tables: &FieldTables, field: Field, a: u16) -> u16 {
    let l = tables.to_multiplier(Additive(a)).0;
    tables.get_exp_table((field.onemask() - l) % field.onemask())
}

fn subspace(tables: &FieldTables, m: usize, x: u16) -> u16 {
    let mut s = x;
    for _ in 0..m {
        s = product(tables, s, s ^ 1);
    }
    s
}

fn eval(tables: &FieldTables, mu: usize, c: &[Additive], off: usize, x: u16) -> u16 {
    if mu == 0 {
        c[off].0
    } else {
        let h = mu - 1;
        eval(tables, h, c, off, x)
            ^ product(tables, subspace(tables, h, x), eval(tables, h, c, off + (1 << h), x))
    }
}

fn eval_derivative(tables: &FieldTables, mu: usize, c: &[Additive], off: usize, x: u16) -> u16 {
    if mu == 0 {
        0
    } else {
        let h = mu - 1;
        eval_derivative(tables, h, c, off, x)
            ^ product(
                tables,
                subspace(tables, h, x),
                eval_derivative(tables, h, c, off + (1 << h), x),
            )
            ^ eval(tables, h, c, off + (1 << h), x)
    }
}

fn sample(field: Field, len: usize, seed: u32) -> Vec<Additive> {
    let mut state = seed;
    let mut v = Vec::new();
    for _ in 0..len {
        state = state.wrapping_mul(1664525).wrapping_add(1013904223);
        v.push(Additive(((state >> 8) as usize % field.size()) as u16));
    }
    v
}

#[test]
fn products_obey_the_laws_of_a_field() {
    for field in [Field::F256, Field::F2e16] {
        let tables = FieldTables::new(field).unwrap();
        let xs = sample(field, 24, 7);
        for a in &xs {
            assert_eq!(product(&tables, a.0, 1), a.0);
            assert_eq!(product(&tables, 1, a.0), a.0);
            assert_eq!(product(&tables, a.0, 0), 0);
            if a.0 != 0 {
                assert_eq!(product(&tables, a.0, inverse(&tables, field, a.0)), 1);
            }
            for b in &xs {
                assert_eq!(product(&tables, a.0, b.0), product(&tables, b.0, a.0));
                for c in &xs[..6] {
                    assert_eq!(
                        product(&tables, product(&tables, a.0, b.0), c.0),
                        product(&tables, a.0, product(&tables, b.0, c.0))
                    );
                    assert_eq!(
                        product(&tables, a.0, b.0 ^ c.0),
                        product(&tables, a.0, b.0) ^ product(&tables, a.0, c.0)
                    );
                }
            }
        }
    }
}

#[test]
fn the_generator_has_the_logarithm_one() {
    for field in [Field::F256, Field::F2e16] {
        let tables = FieldTables::new(field).unwrap();
        let generator = tables.get_exp_table(1);
        for x in sample(field, 50, 3) {
            assert_eq!(
                tables.mul(x, Logarithm(1)).0,
                product(&tables, x.0, generator),
                "{:?}",
                x
            );
        }
        assert_eq!(tables.get_exp_table(0), 1);
    }
}

#[test]
fn skew_factors_are_values_of_the_subspace_polynomials() {
    for field in [Field::F256, Field::F2e16] {
        let tables = FieldTables::new(field).unwrap();
        let bits = field.bits() as usize;
        for e in 0..bits {
            // the polynomial of level e vanishes below 2^e and is one at 2^e
            for v in [0usize, 1, (1 << e) - 1, (1 << e) / 2] {
                if v < (1 << e) {
                    assert_eq!(subspace(&tables, e, v as u16), 0);
                }
            }
            assert_eq!(subspace(&tables, e, 1u16 << e), 1);
            let span = 1usize << (e + 1);
            for c in [0usize, 1, 2, 5, 100] {
                if c * span + span <= field.size() {
                    let value = subspace(&tables, e, (c * span) as u16);
                    assert_eq!(
                        tables.get_skew(c * span + (1 << e) - 1),
                        tables.to_multiplier(Additive(value)),
                        "level {} block {}",
                        e,
                        c
                    );
                }
            }
        }
        // the twist of the formal derivative is trivial
        for j in 0..field.size() / 2 {
            assert_eq!(tables.get_b(j), Logarithm(0));
        }
    }
}

#[test]
fn the_transform_gives_the_values_of_the_polynomial() {
    for field in [Field::F256, Field::F2e16] {
        let tables = FieldTables::new(field).unwrap();
        for mu in 0..5usize {
            let size = 1usize << mu;
            for index in [0, size, 3 * size, 8 * size] {
                let c = sample(field, size, (mu * 31 + index) as u32);
                let mut values = c.clone();
                afft(&tables, &mut values, size, index);
                for t in 0..size {
                    assert_eq!(
                        values[t].0,
                        eval(&tables, mu, &c, 0, (index + t) as u16),
                        "size {} index {} place {}",
                        size,
                        index,
                        t
                    );
                }
                inverse_afft(&tables, &mut values, size, index);
                assert_eq!(values, c);
            }
        }
    }
}

#[test]
fn the_formal_derivative_is_the_polynomial_plus_its_derivative() {
    for field in [Field::F256, Field::F2e16] {
        let tables = FieldTables::new(field).unwrap();
        for mu in 0..5usize {
            let size = 1usize << mu;
            let c = sample(field, size, 11 + mu as u32);
            let mut d = c.clone();
            formal_derivative(field, &mut d, size);
            for x in sample(field, 8, 5) {
                assert_eq!(
                    eval(&tables, mu, &d, 0, x.0),
                    eval(&tables, mu, &c, 0, x.0) ^ eval_derivative(&tables, mu, &c, 0, x.0)
                );
            }
        }
    }
}

#[test]
fn the_error_locator_multiplies_by_the_differences_of_the_points() {
    for field in [Field::F256, Field::F2e16] {
        let tables = FieldTables::new(field).unwrap();
        let n = 16usize;
        let erased = [1usize, 2, 7, 12, 15];
        let mut erasure = vec![false; n];
        for e in erased {
            erasure[e] = true;
        }
        let mut logs = vec![Logarithm(0); field.size()];
        eval_error_polynomial(&tables, &erasure[..], &mut logs, field.size());
        for i in 0..field.size().min(300) {
            let mut locator = 1u16;
            for e in erased {
                if e != i {
                    locator = product(&tables, locator, (i ^ e) as u16);
                }
            }
            for v in [1u16, 2, 77, 255] {
                let got = tables.mul(Additive(v), logs[i]).0;
                if i < n && erasure[i] {
                    assert_eq!(product(&tables, got, locator), v, "erased place {}", i);
                } else {
                    assert_eq!(got, product(&tables, v, locator), "place {}", i);
                }
            }
        }
    }
}

#[test]
fn parity_and_payload_are_the_values_of_a_polynomial_with_k_coefficients() {
    for field in [Field::F256, Field::F2e16] {
        let tables = FieldTables::new(field).unwrap();
        for (n, k) in [(16usize, 12usize), (16, 8), (8, 7), (64, 48), (32, 31)] {
            let t = n - k;
            let data = sample(field, k, (n * 7 + k) as u32);
            let mut parity = vec![Additive(0); t];
            let mut mem = vec![Additive(0); t];
            encode_high(&tables, &data, k, &mut parity, &mut mem, n);
            let mut codeword = parity.clone();
            codeword.extend_from_slice(&data);
            let values = codeword.clone();
            inverse_afft(&tables, &mut codeword, n, 0);
            for j in k..n {
                assert_eq!(codeword[j], Additive(0), "n {} k {} coefficient {}", n, k, j);
            }
            let mu = n.trailing_zeros() as usize;
            for i in 0..n {
                assert_eq!(values[i].0, eval(&tables, mu, &codeword, 0, i as u16));
            }
        }
    }
}

#[test]
fn the_error_locator_takes_no_notice_of_what_the_buffer_held() {
    for field in [Field::F256, Field::F2e16] {
        let tables = FieldTables::new(field).unwrap();
        let n = 16usize;
        let mut erasure = vec![false; n];
        for e in [0usize, 3, 4, 11] {
            erasure[e] = true;
        }
        let mut clean = vec![Logarithm(0); field.size()];
        eval_error_polynomial(&tables, &erasure[..], &mut clean, field.size());
        // as many marks as the codeword is long, and a buffer that was used before
        let mut used: Vec<Logarithm> =
            (0..field.size() + 3).map(|i| Logarithm(((i * 7 + 5) % field.size()) as u16)).collect();
        eval_error_polynomial(&tables, &erasure[..], &mut used, n);
        assert_eq!(&used[..field.size()], &clean[..]);
        // what lies behind the places of the field is left alone
        for i in field.size()..field.size() + 3 {
            assert_eq!(used[i], Logarithm(((i * 7 + 5) % field.size()) as u16));
        }
        // fewer marks than the pattern has: the marks behind them do not count
        let mut fewer = vec![Logarithm(9); field.size()];
        eval_error_polynomial(&tables, &erasure[..], &mut fewer, 4);
        let mut short = vec![Logarithm(0); field.size()];
        eval_error_polynomial(&tables, &erasure[..4], &mut short, field.size());
        assert_eq!(fewer, short);
    }
}
