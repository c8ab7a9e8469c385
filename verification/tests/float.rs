//! The numbers of the library against the machine's own.

use vad_core::float::binary32::Binary32;
use vad_core::float::binary64::Binary64;

fn single(x: f32) -> Binary32 {
    Binary32::from_bits(x.to_bits())
}

fn double(x: f64) -> Binary64 {
    Binary64::from_bits(x.to_bits())
}

fn same32(got: Binary32, want: f32) -> bool {
    let got: f32 = f32::from_bits(got.to_bits());
    got.to_bits() == want.to_bits() || (got.is_nan() && want.is_nan())
}

fn same64(got: Binary64, want: f64) -> bool {
    let got: f64 = f64::from_bits(got.to_bits());
    got.to_bits() == want.to_bits() || (got.is_nan() && want.is_nan())
}

/// A reproducible stream of bit patterns.
struct Stream {
    state: u64,
}

impl Stream {
    fn next(&mut self) -> u64 {
        self.state ^= self.state << 13;
        self.state ^= self.state >> 7;
        self.state ^= self.state << 17;
        self.state.wrapping_mul(0x2545_f491_4f6c_dd1d)
    }

    fn single(&mut self) -> f32 {
        let r: u64 = self.next();
        match r % 8 {
            0 => f32::from_bits((r >> 20) as u32),
            1 => f32::from_bits(((r >> 20) as u32) & 0x807f_ffff),
            2 => ((r >> 40) as i32 % 4000) as f32,
            3 => ((r >> 16) as i16) as f32 / 32768.0,
            4 => f32::from_bits(0x3f80_0000 + ((r >> 40) as u32 & 0xff)),
            5 => f32::from_bits(0x4b00_0000 ^ ((r >> 33) as u32 & 0x80ff_ffff)),
            6 => f32::from_bits(((r >> 20) as u32) & 0x8fff_ffff),
            _ => [
                0.0,
                -0.0,
                1.0,
                -1.0,
                f32::INFINITY,
                f32::NEG_INFINITY,
                f32::NAN,
                f32::MAX,
                f32::MIN_POSITIVE,
                0.5,
                1.5,
                2.5,
            ][(r >> 32) as usize % 12],
        }
    }

    fn double(&mut self) -> f64 {
        let r: u64 = self.next();
        let q: u64 = self.next();
        match r % 8 {
            0 => f64::from_bits(q),
            1 => f64::from_bits(q & 0x800f_ffff_ffff_ffff),
            2 => (q as i64 % 100_000) as f64,
            3 => (q >> (r >> 58)) as f64,
            4 => f64::from_bits(0x3ff0_0000_0000_0000 + (q & 0xff)),
            5 => f64::from_bits(0x4340_0000_0000_0000 ^ (q & 0x801f_ffff_ffff_ffff)),
            6 => (q as i64 % 1_000_000) as f64 / 64.0,
            _ => [
                0.0,
                -0.0,
                1.0,
                -1.0,
                f64::INFINITY,
                f64::NEG_INFINITY,
                f64::NAN,
                f64::MAX,
                f64::MIN_POSITIVE,
                0.5,
                1.5,
                2.5,
            ][(r >> 32) as usize % 12],
        }
    }
}

#[test]
fn single_arithmetic_matches_the_machine() {
    let mut s = Stream { state: 0x9e37_79b9_7f4a_7c15 };
    for _ in 0..400_000 {
        let (x, y) = (s.single(), s.single());
        let (a, b) = (single(x), single(y));
        assert!(same32(a.plus(b), x + y), "{:?} + {:?}", x, y);
        assert!(same32(a.minus(b), x - y), "{:?} - {:?}", x, y);
        assert!(same32(a.times(b), x * y), "{:?} * {:?}", x, y);
        assert!(same32(a.over(b), x / y), "{:?} / {:?}", x, y);
        assert_eq!(a.below(b), x < y);
        assert_eq!(a.at_most(b), x <= y);
        assert_eq!(a.equals(b), x == y);
        assert_eq!(a.is_nan(), x.is_nan());
        assert_eq!(a.to_i16(), x as i16);
        assert_eq!(a.to_usize(), x as usize);
        if !(x == 0.0 && y == 0.0) {
            assert!(same32(a.max(b), x.max(y)));
        }
        if x <= y {
            let z: f32 = s.single();
            assert!(same32(single(z).clamped(a, b), z.clamp(x, y)) || z == 0.0);
        }
    }
}

#[test]
fn double_arithmetic_matches_the_machine() {
    let mut s = Stream { state: 0x1234_5678_9abc_def1 };
    for _ in 0..400_000 {
        let (x, y) = (s.double(), s.double());
        let (a, b) = (double(x), double(y));
        assert!(same64(a.plus(b), x + y), "{:?} + {:?}", x, y);
        assert!(same64(a.minus(b), x - y), "{:?} - {:?}", x, y);
        assert!(same64(a.times(b), x * y), "{:?} * {:?}", x, y);
        assert!(same64(a.over(b), x / y), "{:?} / {:?}", x, y);
        assert!(same64(a.sqrt(), x.sqrt()), "sqrt {:?}", x);
        assert!(same64(a.abs(), x.abs()));
        assert_eq!(a.below(b), x < y);
        assert_eq!(a.at_most(b), x <= y);
        assert_eq!(a.equals(b), x == y);
        assert_eq!(a.is_nan(), x.is_nan());
        assert_eq!(a.round_to_u64(), x.round() as u64, "{:?}", x);
        assert!(same32(a.to_single(), x as f32), "{:?}", x);
        if !(x == 0.0 && y == 0.0) {
            assert!(same64(a.max(b), x.max(y)));
            assert!(same64(a.min(b), x.min(y)));
        }
    }
}

#[test]
fn integers_convert_as_on_the_machine() {
    let mut s = Stream { state: 42 };
    for _ in 0..200_000 {
        let r: u64 = s.next();
        let n: u64 = s.next() >> (r % 64);
        assert!(same32(Binary32::from_u64(n), n as f32), "{}", n);
        assert!(same64(Binary64::from_u64(n), n as f64), "{}", n);
    }
    for n in i16::MIN..=i16::MAX {
        assert!(same32(Binary32::from_i16(n), n as f32), "{}", n);
    }
}

#[test]
fn close_and_far_addends() {
    let mut s = Stream { state: 77 };
    for _ in 0..200_000 {
        let r: u64 = s.next();
        let x: f64 = f64::from_bits(0x3ff0_0000_0000_0000 | (r >> 12));
        let shift: i32 = (s.next() % 160) as i32 - 80;
        let y: f64 = f64::from_bits(0x3ff0_0000_0000_0000 | (s.next() >> 12)) * 2f64.powi(shift);
        for (u, v) in [(x, y), (x, -y), (-x, y), (y, -x)] {
            assert!(same64(double(u).plus(double(v)), u + v), "{:?} + {:?}", u, v);
        }
    }
}
