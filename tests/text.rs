use ot_rs::operation::Operation;
use ot_rs::text::TextOperation;

const CHARSET: [char; 10] = ['a', 'b', 'c', '1', '2', '3', '中', '文', '😄', '😂'];
const RAND_TEST_COUNT: usize = 100;

/// A small deterministic generator, so that runs are repeatable.
struct Lcg(u64);

impl Lcg {
    fn next(&mut self) -> u64 {
        self.0 = self
            .0
            .wrapping_mul(6364136223846793005)
            .wrapping_add(1442695040888963407);
        self.0 >> 33
    }

    /// A number in `lo..=hi`.
    fn range(&mut self, lo: usize, hi: usize) -> usize {
        lo + (self.next() as usize) % (hi - lo + 1)
    }

    /// A number in `0..100`.
    fn percent(&mut self) -> usize {
        (self.next() % 100) as usize
    }
}

fn random_string(rng: &mut Lcg, n: usize) -> String {
    (0..n).map(|_| CHARSET[rng.range(0, CHARSET.len() - 1)]).collect()
}

fn random_operation(rng: &mut Lcg, base: &str) -> TextOperation {
    let mut ops = TextOperation::new();
    loop {
        let left = base.chars().count() - ops.base_length();
        if left == 0 {
            break;
        }
        let r = rng.percent();
        let l = rng.range(1, left);
        if r < 20 {
            let s = random_string(rng, l);
            ops.insert(&s);
        } else if r < 40 {
            ops.delete(l);
        } else {
            ops.retain(l);
        }
    }
    if rng.percent() < 30 {
        let s = random_string(rng, 10);
        ops.insert(&s);
    }
    ops
}

fn run_n(n: usize, seed: u64, f: fn(&mut Lcg)) {
    let mut rng = Lcg(seed);
    for _ in 0..n {
        f(&mut rng);
    }
}

#[test]
fn test_apply() {
    run_n(RAND_TEST_COUNT, 1, |rng| {
        let base = random_string(rng, 50);
        let ops = random_operation(rng, &base);
        let after = ops.apply(&base).unwrap();
        assert_eq!(base.chars().count(), ops.base_length());
        assert_eq!(after.chars().count(), ops.after_length());
    })
}

#[test]
fn test_invert() {
    run_n(RAND_TEST_COUNT, 2, |rng| {
        let base = random_string(rng, 50);
        let ops = random_operation(rng, &base);
        assert_eq!(
            base,
            ops.invert(&base)
                .unwrap()
                .apply(&ops.apply(&base).unwrap())
                .unwrap()
        );
    })
}

#[test]
fn test_compose() {
    run_n(RAND_TEST_COUNT, 3, |rng| {
        let base = random_string(rng, 50);
        let ops1 = random_operation(rng, &base);
        let after1 = ops1.apply(&base).unwrap();
        let ops2 = random_operation(rng, &after1);
        let after2 = ops2.apply(&after1).unwrap();
        let compose_ops = ops1.compose(&ops2).unwrap();
        assert_eq!(after2, compose_ops.apply(&base).unwrap());
    })
}

#[test]
fn test_first_cursor() {
    assert_eq!(0, TextOperation::new().first_cursor());
    assert_eq!(0, TextOperation::new().delete(1).first_cursor());
    assert_eq!(1, TextOperation::new().retain(1).first_cursor());
    assert_eq!(0, TextOperation::new().insert("a").first_cursor());
}

#[test]
fn test_get_simple_operation() {
    assert_eq!(None, TextOperation::new().get_simple_operation());
    assert_eq!(
        &Operation::Delete(1),
        TextOperation::new()
            .delete(1)
            .get_simple_operation()
            .unwrap()
    );
    assert_eq!(
        &Operation::Retain(1),
        TextOperation::new()
            .retain(1)
            .get_simple_operation()
            .unwrap()
    );
    assert_eq!(
        &Operation::Insert("abc".to_string()),
        TextOperation::new()
            .retain(1)
            .insert("abc")
            .retain(1)
            .get_simple_operation()
            .unwrap()
    );
}

#[test]
fn should_be_composed_with_inverted() {
    run_n(RAND_TEST_COUNT, 4, |rng| {
        let base = random_string(rng, 50);
        let ops1 = random_operation(rng, &base);
        let ops1_inverted = ops1.invert(&base).unwrap();
        let after1 = ops1.apply(&base).unwrap();

        let ops2 = random_operation(rng, &after1);
        let ops2_inverted = ops2.invert(&after1).unwrap();
        assert_eq!(
            ops1.should_be_composed_with(&ops2),
            ops2_inverted.should_be_composed_with_inverted(&ops1_inverted),
        );
    })
}

#[test]
fn should_transform() {
    run_n(RAND_TEST_COUNT, 5, |rng| {
        let base = random_string(rng, 50);
        let sa = random_operation(rng, &base);
        let sb = random_operation(rng, &base);
        let (sa_prime, sb_prime) = TextOperation::transform(&sa, &sb).unwrap();
        let ab_prime = sa.compose(&sb_prime).unwrap();
        let ba_prime = sb.compose(&sa_prime).unwrap();
        let sa_sb_prime_after = ab_prime.apply(&base);
        let sb_sa_prime_after = ba_prime.apply(&base);
        assert!(ab_prime == ba_prime);
        assert_eq!(sa_sb_prime_after, sb_sa_prime_after);
    });
}
