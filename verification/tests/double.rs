use tcloc::double::Double;

fn double(x: f64) -> Double {
    Double::from_bits(x.to_bits())
}

fn bits(x: Double) -> u64 {
    x.to_bits()
}

fn same(x: Double, y: f64) -> bool {
    if y.is_nan() {
        x == Double::Nan
    } else {
        bits(x) == y.to_bits()
    }
}

struct Source(u64);

impl Source {
    fn next(&mut self) -> u64 {
        self.0 ^= self.0 << 13;
        self.0 ^= self.0 >> 7;
        self.0 ^= self.0 << 17;
        self.0
    }

    /// A number that is not negative, of any size.
    fn any(&mut self) -> f64 {
        loop {
            let x = f64::from_bits(self.next() >> 1);
            if !x.is_nan() {
                return x;
            }
        }
    }

    /// A number of moderate size.
    fn usual(&mut self) -> f64 {
        let e = (self.next() % 80) as i32 - 40;
        (self.next() >> 11) as f64 * 2f64.powi(e - 30)
    }
}

#[test]
fn numbers_survive_their_bits() {
    let mut s = Source(88172645463325252);
    for _ in 0..20000 {
        let x = s.any();
        assert_eq!(bits(double(x)), x.to_bits());
    }
    assert_eq!(bits(double(f64::INFINITY)), f64::INFINITY.to_bits());
    assert_eq!(bits(double(5e-324)), 1);
    assert_eq!(double(f64::NAN), Double::Nan);
    assert_eq!(bits(Double::zero()), 0);
}

#[test]
fn arithmetic_as_the_machine_does_it() {
    let mut s = Source(0x9e3779b97f4a7c15);
    for i in 0..40000 {
        let (x, y) = if i % 2 == 0 {
            (s.usual(), s.usual())
        } else {
            (s.any(), s.any())
        };
        assert!(same(double(x).plus(double(y)), x + y), "{x:e} + {y:e}");
        assert!(same(double(x).times(double(y)), x * y), "{x:e} * {y:e}");
        assert!(same(double(x).over(double(y)), x / y), "{x:e} / {y:e}");
        let (hi, lo) = if x >= y { (x, y) } else { (y, x) };
        assert!(same(double(hi).minus(double(lo)), hi - lo), "{hi:e} - {lo:e}");
        assert_eq!(double(x).lt(double(y)), x < y);
        assert_eq!(double(x).le(double(y)), x <= y);
        assert!(same(double(x).min(double(y)), x.min(y)));
        assert!(same(double(x).max(double(y)), x.max(y)));
    }
}

#[test]
fn close_numbers_and_ties() {
    let mut s = Source(77);
    for _ in 0..20000 {
        let x = s.usual();
        let y = f64::from_bits(x.to_bits() + s.next() % 3);
        assert!(same(double(y).minus(double(x)), y - x));
        assert!(same(double(x).plus(double(y)), x + y));
        assert!(same(double(x).over(double(y)), x / y));
        let half = x * 2f64.powi(-53);
        assert!(same(double(x).plus(double(half)), x + half));
    }
}

#[test]
fn the_ends_of_the_range() {
    let max = f64::MAX;
    let tiny = 5e-324;
    let inf = f64::INFINITY;
    for (x, y) in [
        (max, max),
        (max, tiny),
        (tiny, tiny),
        (inf, 1.0),
        (1.0, inf),
        (0.0, 1.0),
        (0.0, 0.0),
        (1.0, 0.0),
        (inf, inf),
        (inf, 0.0),
        (f64::MIN_POSITIVE, 0.5),
        (2.2250738585072011e-308, 1.0),
    ] {
        assert!(same(double(x).plus(double(y)), x + y), "{x:e} + {y:e}");
        assert!(same(double(x).times(double(y)), x * y), "{x:e} * {y:e}");
        assert!(same(double(x).over(double(y)), x / y), "{x:e} / {y:e}");
    }
    assert_eq!(Double::Nan.plus(double(1.0)), Double::Nan);
    assert_eq!(Double::Nan.times(double(1.0)), Double::Nan);
    assert_eq!(double(1.0).over(Double::Nan), Double::Nan);
    assert!(!Double::Nan.lt(double(1.0)) && !double(1.0).le(Double::Nan));
    assert!(same(Double::Nan.max(double(3.0)), 3.0));
    assert!(same(double(3.0).min(Double::Nan), 3.0));
}

#[test]
fn integers_round_as_casts_do() {
    let mut s = Source(4242);
    for _ in 0..20000 {
        let n = s.next() >> (s.next() % 64);
        assert!(same(Double::of(n), n as f64), "{n}");
        let w = (s.next() as u128) << (s.next() % 62) | s.next() as u128;
        assert!(same(Double::of_wide(w), w as f64), "{w}");
    }
    assert!(same(Double::of(u64::MAX), u64::MAX as f64));
    assert!(same(Double::of(9007199254740993), 9007199254740993u64 as f64));
}

#[test]
fn numbers_become_integers_as_casts_do() {
    let mut s = Source(99);
    for _ in 0..20000 {
        let x = s.usual();
        assert_eq!(double(x).trunc(), x as u64, "{x:e}");
        assert_eq!(double(x).round(), x.round() as i32, "{x:e}");
    }
    for x in [0.0, 0.49999999999999994, 0.5, 1.5, 2.5, 1e300, f64::INFINITY, 2147483646.5] {
        assert_eq!(double(x).trunc(), x as u64, "{x:e}");
        assert_eq!(double(x).round(), x.round() as i32, "{x:e}");
    }
    assert_eq!(Double::Nan.trunc(), 0);
    assert_eq!(Double::Nan.round(), 0);
}

#[test]
fn fractions_as_literals() {
    assert!(same(Double::fraction(35, 100), 0.35));
    assert!(same(Double::fraction(1, 10), 0.10));
    assert!(same(Double::fraction(4, 10), 0.4));
    assert!(same(Double::fraction(1, 1_000_000_000), 1e-9));
    assert!(same(Double::fraction(2126, 10000), 0.2126));
    assert!(same(Double::fraction(7152, 10000), 0.7152));
    assert!(same(Double::fraction(722, 10000), 0.0722));
    assert!(same(Double::fraction(85, 100), 0.85));
}
