use count_array::{over, Counter, CounterError};

/// A counter of `len` digits over `domain` values, stepped `steps` times from
/// all zeros.
fn stepped(domain: u32, len: usize, steps: u64) -> Counter {
    let mut c = Counter::new(domain, len).unwrap();
    let mut done: u64 = 0;
    while done < steps {
        c.inc();
        done += 1;
    }
    c
}

/// How many calls of `inc` it takes, from all zeros, until one reports a wrap.
fn steps_until_wrap(domain: u32, len: usize) -> u64 {
    let mut c = over(domain, len).unwrap();
    let mut steps: u64 = 1;
    while !c.inc() {
        steps += 1;
    }
    steps
}

#[test]
#[should_panic(expected = "domain must be positive, but was 0")]
fn test_invalid_panics() {
    if let Err(error) = Counter::new(0, 3) {
        panic!("{}", error.message());
    }
}

#[test]
fn test_construction() {
    let c = Counter::new(4, 3).unwrap();
    assert_eq!(c.domain_max(), 3);
    assert_eq!(c.read(), vec![0, 0, 0]);
}

#[test]
fn test_construction_more() {
    let c = Counter::new(99, 3).unwrap();
    assert_eq!(c.domain_max(), 98);
    assert_eq!(c.read(), vec![0, 0, 0]);
}

#[test]
fn test_increment() {
    let mut c = Counter::new(4, 3).unwrap();
    assert_eq!(c.domain_max(), 3);
    assert_eq!(c.read(), vec![0, 0, 0]);
    assert_eq!(false, c.inc());
    assert_eq!(c.read(), vec![1, 0, 0]);
    assert_eq!(false, c.inc());
    assert_eq!(c.read(), vec![2, 0, 0]);
    assert_eq!(false, c.inc());
    assert_eq!(c.read(), vec![3, 0, 0]);
    assert_eq!(false, c.inc());
    assert_eq!(c.read(), vec![0, 1, 0]);
    assert_eq!(false, c.inc());
    assert_eq!(c.read(), vec![1, 1, 0]);
}

#[test]
fn test_increment_end() {
    // 3 + 2 * 4 + 3 * 16 steps from all zeros lead to the digits 3, 2, 3.
    let mut c = stepped(4, 3, 59);
    assert_eq!(c.domain_max(), 3);
    assert_eq!(c.read(), vec![3, 2, 3]);
    assert_eq!(false, c.inc());
    assert_eq!(c.read(), vec![0, 3, 3]);
    assert_eq!(false, c.inc());
    assert_eq!(c.read(), vec![1, 3, 3]);
    assert_eq!(false, c.inc());
    assert_eq!(c.read(), vec![2, 3, 3]);
    assert_eq!(false, c.inc());
    assert_eq!(c.read(), vec![3, 3, 3]);
    assert_eq!(true, c.inc());
    assert_eq!(c.read(), vec![0, 0, 0]);
}

#[test]
fn invalid_domain_is_refused() {
    assert_eq!(Counter::new(0, 3).err(), Some(CounterError::InvalidDomain));
    assert_eq!(Counter::new(0, 0).err(), Some(CounterError::InvalidDomain));
    assert_eq!(over(0, 5).err(), Some(CounterError::InvalidDomain));
    assert!(Counter::new(1, 3).is_ok());
    assert!(over(1, 0).is_ok());
}

#[test]
fn invalid_domain_describes_itself() {
    assert_eq!(
        CounterError::InvalidDomain.message(),
        "domain must be positive, but was 0"
    );
}

#[test]
fn over_makes_what_new_makes() {
    let a = over(7, 4).unwrap();
    let b = Counter::new(7, 4).unwrap();
    assert_eq!(a.domain_max(), 6);
    assert_eq!(a.domain_max(), b.domain_max());
    assert_eq!(a.read(), b.read());
    assert_eq!(a.read(), vec![0, 0, 0, 0]);
}

#[test]
fn largest_domain_is_accepted() {
    let mut c = Counter::new(u32::MAX, 2).unwrap();
    assert_eq!(c.domain_max(), u32::MAX - 1);
    assert_eq!(false, c.inc());
    assert_eq!(false, c.inc());
    assert_eq!(c.read(), vec![2, 0]);
}

#[test]
fn no_digits_wrap_at_once() {
    let mut c = Counter::new(4, 0).unwrap();
    assert!(c.read().is_empty());
    assert_eq!(true, c.inc());
    assert_eq!(true, c.inc());
    assert!(c.read().is_empty());
    assert!(c.next().is_none());
}

#[test]
fn single_value_domain_wraps_at_once() {
    let mut c = Counter::new(1, 3).unwrap();
    assert_eq!(c.domain_max(), 0);
    assert_eq!(true, c.inc());
    assert_eq!(c.read(), vec![0, 0, 0]);
    assert_eq!(true, c.inc());
    assert!(c.next().is_none());
    assert_eq!(c.read(), vec![0, 0, 0]);
}

#[test]
fn cycle_of_four_values_and_three_digits_has_64_steps() {
    let mut c = Counter::new(4, 3).unwrap();
    let mut step: u32 = 1;
    while step < 64 {
        assert_eq!(false, c.inc());
        step += 1;
    }
    assert_eq!(c.read(), vec![3, 3, 3]);
    assert_eq!(true, c.inc());
    assert_eq!(c.read(), vec![0, 0, 0]);
}

#[test]
fn cycle_length_is_domain_to_the_power_of_length() {
    assert_eq!(steps_until_wrap(10, 5), 100_000);
    assert_eq!(steps_until_wrap(32, 2), 1024);
    assert_eq!(steps_until_wrap(3, 3), 27);
    assert_eq!(steps_until_wrap(2, 10), 1024);
    assert_eq!(steps_until_wrap(5, 1), 5);
    assert_eq!(steps_until_wrap(1, 4), 1);
    assert_eq!(steps_until_wrap(9, 0), 1);
}

#[test]
fn second_cycle_is_as_long_as_the_first() {
    let mut c = Counter::new(3, 2).unwrap();
    let mut cycle: u32 = 0;
    while cycle < 3 {
        let mut steps: u32 = 1;
        while !c.inc() {
            steps += 1;
        }
        assert_eq!(steps, 9);
        assert_eq!(c.read(), vec![0, 0]);
        cycle += 1;
    }
}

#[test]
fn digits_spell_the_number_of_steps() {
    let mut c = Counter::new(3, 4).unwrap();
    let mut steps: u32 = 0;
    while steps < 81 {
        let digits = c.read();
        assert!(digits.iter().all(|d| *d <= 2));
        let spelled = digits[0] + 3 * digits[1] + 9 * digits[2] + 27 * digits[3];
        assert_eq!(spelled, steps);
        let wrapped = c.inc();
        steps += 1;
        assert_eq!(wrapped, steps == 81);
    }
    assert_eq!(c.read(), vec![0, 0, 0, 0]);
}

#[test]
fn a_cycle_meets_every_state_once() {
    let mut c = Counter::new(3, 3).unwrap();
    let mut seen: Vec<Vec<u32>> = Vec::new();
    loop {
        let state = c.read().to_vec();
        assert!(!seen.contains(&state));
        seen.push(state);
        if c.inc() {
            break;
        }
    }
    assert_eq!(seen.len(), 27);
    assert_eq!(seen[0], vec![0, 0, 0]);
    assert_eq!(seen[1], vec![1, 0, 0]);
    assert_eq!(seen[3], vec![0, 1, 0]);
    assert_eq!(seen[9], vec![0, 0, 1]);
    assert_eq!(seen[26], vec![2, 2, 2]);
}

#[test]
fn next_hands_out_the_new_digits() {
    let mut c = Counter::new(4, 3).unwrap();
    assert_eq!(c.next(), Some(&[1, 0, 0][..]));
    assert_eq!(c.next(), Some(&[2, 0, 0][..]));
    assert_eq!(c.next(), Some(&[3, 0, 0][..]));
    assert_eq!(c.next(), Some(&[0, 1, 0][..]));
    assert_eq!(c.next(), Some(&[1, 1, 0][..]));
    assert_eq!(c.read(), vec![1, 1, 0]);
}

#[test]
fn next_produces_all_but_one_state_per_cycle() {
    let mut c = over(3, 2).unwrap();
    let mut produced: Vec<Vec<u32>> = Vec::new();
    while let Some(digits) = c.next() {
        produced.push(digits.to_vec());
    }
    assert_eq!(
        produced,
        vec![
            vec![1, 0],
            vec![2, 0],
            vec![0, 1],
            vec![1, 1],
            vec![2, 1],
            vec![0, 2],
            vec![1, 2],
            vec![2, 2],
        ]
    );
    assert_eq!(c.read(), vec![0, 0]);
}

#[test]
fn next_resumes_after_exhaustion() {
    let mut c = stepped(4, 3, 63);
    assert_eq!(c.read(), vec![3, 3, 3]);
    assert_eq!(c.next(), None);
    assert_eq!(c.read(), vec![0, 0, 0]);
    assert_eq!(c.next(), Some(&[1, 0, 0][..]));
    assert_eq!(c.next(), Some(&[2, 0, 0][..]));
    let mut more: u32 = 0;
    while c.next().is_some() {
        more += 1;
    }
    assert_eq!(more, 61);
    assert_eq!(c.next(), Some(&[1, 0, 0][..]));
}

#[test]
fn reading_does_not_move_the_counter() {
    let mut c = stepped(4, 3, 63);
    let before: Vec<u32> = c.read().to_vec();
    assert_eq!(c.read(), before);
    assert_eq!(c.domain_max(), 3);
    assert_eq!(c.read(), vec![3, 3, 3]);
    assert_eq!(true, c.inc());
    assert_eq!(before, vec![3, 3, 3]);
    assert_eq!(c.read(), vec![0, 0, 0]);
    assert_eq!(c.read(), c.read());
}
