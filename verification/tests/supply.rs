use prime_walk::cache::{decode_primes, encode_primes, CacheError};
use prime_walk::primes::{primes, PrimeIter};

#[test]
fn primes_small_limits() {
    assert_eq!(primes(10), vec![2, 3, 5, 7]);
    assert_eq!(primes(2), vec![2]);
    assert_eq!(primes(7), vec![2, 3, 5, 7]);
    assert_eq!(primes(1), Vec::<u64>::new());
    assert_eq!(primes(0), Vec::<u64>::new());
}

#[test]
fn primes_are_sorted_bounded_and_gapless() {
    let limit: u64 = 5000;
    let ps = primes(limit);
    for w in ps.windows(2) {
        assert!(w[0] < w[1]);
    }
    for &p in &ps {
        assert!(p >= 2 && p <= limit);
        for k in 2..p {
            assert_ne!(p % k, 0, "{} is not prime", p);
        }
    }
    // no prime below the limit is missing
    for n in 2..=limit {
        let is_p = (2..n).all(|k| n % k != 0);
        assert_eq!(ps.contains(&n), is_p);
    }
}

#[test]
fn primes_idempotent() {
    let a = primes(1000);
    let b = primes(1000);
    assert_eq!(a, b);
    assert_eq!(a.len(), 168);
}

#[test]
fn encode_simple() {
    assert_eq!(encode_primes(&vec![2, 3, 5, 7]), b"2\n3\n5\n7\n".to_vec());
    assert_eq!(encode_primes(&vec![104729]), b"104729\n".to_vec());
}

#[test]
fn encode_empty() {
    assert_eq!(encode_primes(&Vec::new()), Vec::<u8>::new());
}

#[test]
fn cache_round_trip() {
    let ps = primes(500);
    let bytes = encode_primes(&ps);
    assert_eq!(decode_primes(&bytes), Ok(ps));
}

#[test]
fn cache_round_trip_twice_is_byte_identical() {
    let a = encode_primes(&primes(300));
    let b = encode_primes(&primes(300));
    assert_eq!(a, b);
}

#[test]
fn decode_empty_artifact() {
    assert_eq!(decode_primes(&Vec::new()), Ok(Vec::new()));
}

#[test]
fn decode_accepts_leading_zeros() {
    assert_eq!(decode_primes(&b"007\n".to_vec()), Ok(vec![7]));
}

#[test]
fn decode_rejects_nondigit_line() {
    assert_eq!(decode_primes(&b"2\nx3\n".to_vec()), Err(CacheError::Malformed));
    assert_eq!(decode_primes(&b"2 \n".to_vec()), Err(CacheError::Malformed));
    assert_eq!(decode_primes(&b"-2\n".to_vec()), Err(CacheError::Malformed));
}

#[test]
fn decode_rejects_empty_line() {
    assert_eq!(decode_primes(&b"2\n\n3\n".to_vec()), Err(CacheError::Malformed));
    assert_eq!(decode_primes(&b"\n".to_vec()), Err(CacheError::Malformed));
}

#[test]
fn decode_rejects_unterminated_final_line() {
    assert_eq!(decode_primes(&b"23".to_vec()), Err(CacheError::Malformed));
    assert_eq!(decode_primes(&b"2\n3".to_vec()), Err(CacheError::Malformed));
}

#[test]
fn decode_handles_the_native_range_boundary() {
    assert_eq!(
        decode_primes(&b"18446744073709551615\n".to_vec()),
        Ok(vec![u64::MAX])
    );
    assert_eq!(
        decode_primes(&b"18446744073709551616\n".to_vec()),
        Err(CacheError::Malformed)
    );
    assert_eq!(
        decode_primes(&b"99999999999999999999999\n".to_vec()),
        Err(CacheError::Malformed)
    );
}

#[test]
fn prime_iter_yields_the_sequence_in_order() {
    let mut it = PrimeIter::new(10);
    assert_eq!(it.next(), Some(2));
    assert_eq!(it.next(), Some(3));
    assert_eq!(it.next(), Some(5));
    assert_eq!(it.next(), Some(7));
    assert_eq!(it.next(), None);
    assert_eq!(it.next(), None);
}

#[test]
fn prime_iter_restarts_identically() {
    let mut a = PrimeIter::new(200);
    let mut b = PrimeIter::new(200);
    loop {
        let x = a.next();
        let y = b.next();
        assert_eq!(x, y);
        if x.is_none() {
            break;
        }
    }
}
