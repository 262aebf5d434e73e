use sharing::field::{add, mul, pow};
use sharing::ids::{
    generate_decoder, generate_identity, inverse, mult_and_subtract, normalize_row, two_mut,
};
use sharing::poly::evaluate;

fn product(a: &[Vec<u8>], b: &[Vec<u8>]) -> Vec<Vec<u8>> {
    let n = a.len();
    let mut out = vec![vec![0u8; n]; n];
    for r in 0..n {
        for c in 0..n {
            let mut acc = 0u8;
            for t in 0..n {
                acc = add(acc, mul(a[r][t], b[t][c]));
            }
            out[r][c] = acc;
        }
    }
    out
}

fn vandermonde(xs: &[u8]) -> Vec<Vec<u8>> {
    let k = xs.len();
    xs.iter().map(|x| (0..k).map(|j| pow(*x, j)).collect()).collect()
}

#[test]
fn identity_matrix() {
    assert_eq!(generate_identity(0), Vec::<Vec<u8>>::new());
    assert_eq!(generate_identity(1), vec![vec![1u8]]);
    assert_eq!(
        generate_identity(3),
        vec![vec![1u8, 0, 0], vec![0, 1, 0], vec![0, 0, 1]]
    );
}

#[test]
fn two_mutable_entries() {
    let mut v = vec![10u8, 20, 30, 40];
    {
        let (a, b) = two_mut(&mut v[..], 1, 3);
        assert_eq!((*a, *b), (20, 40));
        *a = 21;
        *b = 41;
    }
    assert_eq!(v, vec![10, 21, 30, 41]);
    {
        let (a, b) = two_mut(&mut v[..], 3, 0);
        assert_eq!((*a, *b), (41, 10));
        std::mem::swap(a, b);
    }
    assert_eq!(v, vec![41, 21, 30, 10]);
}

#[test]
fn row_operations() {
    let mut tmp = vec![1u8, 2, 3];
    let mut res = vec![4u8, 5, 6];
    normalize_row(&mut tmp[..], &mut res[..], 2);
    assert_eq!(tmp, vec![2, 4, 6]);
    assert_eq!(res, vec![8, 10, 12]);
    let mut row = vec![1u8, 1, 1];
    mult_and_subtract(&mut row[..], &[1, 2, 0x80], 2);
    assert_eq!(row, vec![1 ^ 2, 1 ^ 4, 1 ^ 0x1b]);
}

#[test]
fn inverse_of_identity_is_identity() {
    for n in 0..6 {
        assert_eq!(inverse(generate_identity(n)), Some(generate_identity(n)));
    }
}

#[test]
fn inverse_needs_a_row_swap() {
    let m = vec![vec![0u8, 1], vec![1, 0]];
    let d = inverse(m.clone()).unwrap();
    assert_eq!(d, vec![vec![0u8, 1], vec![1, 0]]);
    let m = vec![vec![0u8, 2, 1], vec![1, 1, 1], vec![3, 0, 7]];
    let d = inverse(m.clone()).unwrap();
    assert_eq!(product(&d, &m), generate_identity(3));
    assert_eq!(product(&m, &d), generate_identity(3));
}

#[test]
fn inverse_of_a_known_matrix() {
    // [[1, 1], [1, 2]] has determinant 1 * 2 + 1 * 1 = 3
    let m = vec![vec![1u8, 1], vec![1, 2]];
    let d = inverse(m.clone()).unwrap();
    let third = sharing::field::inv(3);
    assert_eq!(
        d,
        vec![vec![mul(2, third), third], vec![third, third]]
    );
    assert_eq!(product(&d, &m), generate_identity(2));
}

#[test]
fn singular_matrices_have_no_inverse() {
    assert_eq!(inverse(vec![vec![0u8]]), None);
    assert_eq!(inverse(vec![vec![1u8, 2], vec![1, 2]]), None);
    assert_eq!(inverse(vec![vec![1u8, 2], vec![2, 4]]), None);
    assert_eq!(
        inverse(vec![vec![1u8, 2, 3], vec![4, 5, 6], vec![5, 7, 5]]),
        None
    );
}

#[test]
fn decoder_times_vandermonde_is_identity() {
    for k in 1..=16usize {
        let xs: Vec<u8> = (0..k).map(|i| (7 * i + 3) as u8).collect();
        let d = generate_decoder(k, xs.clone()).unwrap();
        assert_eq!(product(&d, &vandermonde(&xs)), generate_identity(k));
    }
    let xs: Vec<u8> = (1..=255u8).collect();
    let d = generate_decoder(255, xs.clone()).unwrap();
    assert_eq!(product(&d, &vandermonde(&xs)), generate_identity(255));
}

#[test]
fn decoder_uses_the_first_points_only() {
    let d = generate_decoder(2, vec![1, 2, 2, 2]).unwrap();
    assert_eq!(product(&d, &vandermonde(&[1, 2])), generate_identity(2));
}

#[test]
fn decoder_of_repeated_points_is_missing() {
    assert_eq!(generate_decoder(2, vec![5, 5]), None);
    assert_eq!(generate_decoder(3, vec![1, 2, 1]), None);
}

#[test]
fn decoder_with_zero_point() {
    let xs = vec![0u8, 1, 2];
    let d = generate_decoder(3, xs.clone()).unwrap();
    assert_eq!(product(&d, &vandermonde(&xs)), generate_identity(3));
}

#[test]
fn evaluation_in_horner_form() {
    assert_eq!(evaluate(&[], 7), 0);
    assert_eq!(evaluate(&[9], 7), 9);
    assert_eq!(evaluate(&[1, 2], 1), 3);
    assert_eq!(evaluate(&[1, 2], 2), 5);
    assert_eq!(evaluate(&[1, 2, 3], 2), 1 ^ 4 ^ mul(3, 4));
    for x in 0..=255u8 {
        let c = [5u8, 0, 7, 1];
        let direct = add(add(5, mul(7, pow(x, 2))), pow(x, 3));
        assert_eq!(evaluate(&c, x), direct);
        assert_eq!(evaluate(&c, 0), 5);
    }
}
