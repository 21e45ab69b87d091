use market_data::{Fixed, SMA, EMA, RSI, BollingerBands, MACD};

const SCALE: i128 = 1_000_000;

#[test]
fn test_sma() {
    let mut sma = SMA::new(3);

    assert_eq!(sma.update(Fixed::from_int(10)), None);
    assert_eq!(sma.update(Fixed::from_int(20)), None);
    assert_eq!(sma.update(Fixed::from_int(30)), Some(Fixed::from_int(20)));
    assert_eq!(sma.update(Fixed::from_int(40)), Some(Fixed::from_int(30)));
}

#[test]
fn test_ema() {
    let mut ema = EMA::new(3);

    let result1 = ema.update(Fixed::from_int(10));
    assert!(result1.is_some());

    let result2 = ema.update(Fixed::from_int(20));
    assert!(result2.is_some());
    assert!(result2.unwrap().raw > 10 * SCALE);
}

#[test]
fn test_rsi() {
    let mut rsi = RSI::new(14);

    // Feed some data
    for i in 1..=20 {
        rsi.update(Fixed::from_int(50 + i));
    }

    let result = rsi.update(Fixed::from_int(70));
    assert!(result.is_some());

    let rsi_value = result.unwrap();
    assert!(rsi_value.raw >= 0 && rsi_value.raw <= 100 * SCALE);
}

#[test]
fn test_bollinger_bands() {
    let mut bb = BollingerBands::new(20, Fixed::from_int(2));

    // Feed some data
    for i in 1..=25i64 {
        let result = bb.update(Fixed::from_int(50 + i % 10));

        if i >= 20 {
            assert!(result.is_some());
            let (upper, middle, lower) = result.unwrap();
            assert!(upper.raw > middle.raw);
            assert!(middle.raw > lower.raw);
        }
    }
}

#[test]
fn test_macd() {
    let mut macd = MACD::new(12, 26, 9);

    // Feed some data
    for i in 1..=50 {
        macd.update(Fixed::from_int(50 + i));
    }

    let result = macd.update(Fixed::from_int(100));
    assert!(result.is_some());
}

#[test]
fn test_sma_constant_stream() {
    let mut sma = SMA::new(3);
    assert_eq!(sma.update(Fixed::from_int(5)), None);
    assert_eq!(sma.update(Fixed::from_int(5)), None);
    assert_eq!(sma.update(Fixed::from_int(5)), Some(Fixed::from_int(5)));
    assert_eq!(sma.update(Fixed::from_int(5)), Some(Fixed::from_int(5)));
}

#[test]
fn test_sma_reset() {
    let mut sma = SMA::new(2);
    assert_eq!(sma.update(Fixed::from_int(4)), None);
    assert_eq!(sma.update(Fixed::from_int(8)), Some(Fixed::from_int(6)));
    sma.reset();
    assert_eq!(sma.update(Fixed::from_int(10)), None);
    assert_eq!(sma.update(Fixed::from_int(20)), Some(Fixed::from_int(15)));
}

#[test]
fn test_ema_seeds_with_first_input() {
    let mut ema = EMA::new(5);
    assert_eq!(ema.update(Fixed::from_int(42)), Some(Fixed::from_int(42)));
}

#[test]
fn test_ema_monotone_approach() {
    // After seeding at 10, a stream of 20s drives the average strictly
    // upward without ever overshooting 20.
    let mut ema = EMA::new(3);
    ema.update(Fixed::from_int(10));
    let mut prev = 10 * SCALE;
    for _ in 0..10 {
        let v = ema.update(Fixed::from_int(20)).unwrap();
        assert!(v.raw > prev);
        assert!(v.raw <= 20 * SCALE);
        prev = v.raw;
    }
    // Multiplier 2/(3+1) = 0.5: the first step lands exactly halfway.
    let mut ema2 = EMA::new(3);
    ema2.update(Fixed::from_int(10));
    assert_eq!(ema2.update(Fixed::from_int(20)), Some(Fixed::from_int(15)));
}

#[test]
fn test_ema_reset() {
    let mut ema = EMA::new(3);
    ema.update(Fixed::from_int(10));
    ema.update(Fixed::from_int(20));
    ema.reset();
    assert_eq!(ema.update(Fixed::from_int(7)), Some(Fixed::from_int(7)));
}

#[test]
fn test_rsi_uptrend_saturates() {
    // Three gains in a row with period 3: the average loss is zero, so
    // the index saturates at exactly 100.
    let mut rsi = RSI::new(3);
    assert_eq!(rsi.update(Fixed::from_int(1)), None);
    assert_eq!(rsi.update(Fixed::from_int(2)), None);
    assert_eq!(rsi.update(Fixed::from_int(3)), None);
    assert_eq!(rsi.update(Fixed::from_int(4)), Some(Fixed::from_scaled(100 * SCALE)));
    assert_eq!(rsi.update(Fixed::from_int(5)), Some(Fixed::from_scaled(100 * SCALE)));
}

#[test]
fn test_rsi_balanced_moves() {
    // Alternating +1/-1 moves give equal average gain and loss:
    // RS = 1, so RSI = 100 - 100/2 = 50.
    let mut rsi = RSI::new(2);
    rsi.update(Fixed::from_int(10));
    rsi.update(Fixed::from_int(11));
    let r = rsi.update(Fixed::from_int(10)).unwrap();
    assert_eq!(r.raw, 50 * SCALE);
}

#[test]
fn test_rsi_reset() {
    let mut rsi = RSI::new(2);
    rsi.update(Fixed::from_int(1));
    rsi.update(Fixed::from_int(2));
    rsi.reset();
    assert_eq!(rsi.update(Fixed::from_int(9)), None);
    assert_eq!(rsi.update(Fixed::from_int(10)), None);
    assert_eq!(rsi.update(Fixed::from_int(11)), Some(Fixed::from_scaled(100 * SCALE)));
}

#[test]
fn test_bollinger_constant_stream() {
    // A constant stream has zero variance: all three bands coincide.
    let mut bb = BollingerBands::new(3, Fixed::from_int(2));
    assert_eq!(bb.update(Fixed::from_int(7)), None);
    assert_eq!(bb.update(Fixed::from_int(7)), None);
    assert_eq!(
        bb.update(Fixed::from_int(7)),
        Some((Fixed::from_int(7), Fixed::from_int(7), Fixed::from_int(7)))
    );
}

#[test]
fn test_bollinger_reset() {
    let mut bb = BollingerBands::new(2, Fixed::from_int(1));
    bb.update(Fixed::from_int(1));
    bb.update(Fixed::from_int(2));
    bb.reset();
    assert_eq!(bb.update(Fixed::from_int(3)), None);
}

#[test]
fn test_macd_histogram_identity() {
    // For every returned tuple the histogram is exactly line - signal;
    // on the very first tick all three are zero.
    let mut macd = MACD::new(2, 3, 2);
    let first = macd.update(Fixed::from_int(100)).unwrap();
    assert_eq!(first.0.raw, 0);
    assert_eq!(first.1.raw, 0);
    assert_eq!(first.2.raw, 0);
    for i in 1..=20 {
        let (line, signal, histogram) = macd.update(Fixed::from_int(100 + 3 * i)).unwrap();
        assert_eq!(histogram.raw, line.raw - signal.raw);
    }
}

#[test]
fn test_macd_reset() {
    let mut macd = MACD::new(2, 3, 2);
    macd.update(Fixed::from_int(10));
    macd.update(Fixed::from_int(20));
    macd.reset();
    let first = macd.update(Fixed::from_int(5)).unwrap();
    assert_eq!(first.0.raw, 0);
}

#[test]
fn test_fixed_constructors() {
    assert_eq!(Fixed::from_int(3).raw, 3_000_000);
    assert_eq!(Fixed::from_int(-2).raw, -2_000_000);
    assert_eq!(Fixed::from_scaled(1_500_000).raw, 1_500_000);
}

#[test]
fn test_sma_truncating_mean() {
    // 1 + 2 = 3 millionths-based sum over period 2: exact half.
    let mut sma = SMA::new(2);
    sma.update(Fixed::from_int(1));
    assert_eq!(sma.update(Fixed::from_int(2)), Some(Fixed::from_scaled(1_500_000)));
}

#[test]
fn test_demo_indicators_outputs() {
    let (sma_out, ema_out, rsi_out, macd_out) = market_data::demo_indicators();
    assert_eq!(sma_out.len(), 20);
    assert_eq!(ema_out.len(), 5);
    assert_eq!(rsi_out.len(), 20);
    assert_eq!(macd_out.len(), 20);
    // A ten-period SMA warms up over the first nine prices.
    for k in 0..9 {
        assert!(sma_out[k].is_none());
    }
    assert!(sma_out[9].is_some());
    // The EMA is warm from the first tick and seeds with the first price.
    assert_eq!(ema_out[0], Some(Fixed::from_int(50000)));
    // MACD reports on every tick, with the histogram identity.
    for o in &macd_out {
        let (line, signal, histogram) = o.unwrap();
        assert_eq!(histogram.raw, line.raw - signal.raw);
    }
}
