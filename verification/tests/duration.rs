use lpframe::duration::{parse, parse_maybe, Dur, MaybeDuration};

#[test]
fn parses_every_unit() {
    assert_eq!(parse("250ms").unwrap(), Dur::from_millis(250));
    assert_eq!(parse("15s").unwrap(), Dur::from_secs(15));
    assert_eq!(parse("10m").unwrap(), Dur::from_secs(600));
    assert_eq!(parse("2h").unwrap(), Dur::from_secs(7200));
    assert_eq!(parse(" 1.5s ").unwrap(), Dur::from_millis(1500));
}

#[test]
fn rejects_a_bare_number() {
    // Guessing the unit here would be a silent 1000x error.
    assert!(parse("30").is_err());
    assert!(parse("").is_err());
    assert!(parse("30 fortnights").is_err());
    assert!(parse("-5s").is_err());
}

#[test]
fn off_is_a_value_not_a_sentinel() {
    let d: MaybeDuration = parse_maybe("off").unwrap();
    assert!(d.is_off());
}

#[test]
fn renders_back_to_the_shortest_exact_form() {
    assert_eq!(Dur::from_secs(600).to_string(), "10m");
    assert_eq!(Dur::from_secs(15).to_string(), "15s");
    assert_eq!(Dur::from_millis(600).to_string(), "600ms");
    assert_eq!(Dur::from_secs(7200).to_string(), "2h");
    assert_eq!(MaybeDuration::off().to_string(), "off");
}

#[test]
fn every_written_form_reads_back() {
    for s in ["250ms", "15s", "10m", "2h"] {
        assert_eq!(parse(s).unwrap().to_string(), s);
    }
}

/// What the machine's own arithmetic makes of a number and a unit.
fn machine_ms(number: &str, unit: &str) -> u64 {
    let value: f64 = number.parse().unwrap();
    let millis = match unit {
        "ms" => value,
        "s" => value * 1000.0,
        "m" => value * 60_000.0,
        _ => value * 3_600_000.0,
    };
    millis.round() as u64
}

#[test]
fn numbers_are_read_as_doubles() {
    // Just below the half, where the decimal number is on it.
    assert_eq!(parse("4.0005s").unwrap(), Dur::from_millis(4000));
    assert_eq!(parse("0.5005s").unwrap(), Dur::from_millis(500));
    // What a double does not hold is lost.
    assert_eq!(parse("9007199254740993ms").unwrap(), Dur::from_millis(9007199254740992));

    let numbers = [
        "0", "0.0", ".5", "5.", "0.5", "0.4999", "0.0005", "0.00000013888", "0.1", "1.005",
        "2.675", "123456.789", "16777215.9995", "16777216.0005", "16777217.1234567",
        "4503599627370496.5", "4503599627370497.5", "9007199254740993", "9007199254740995.5",
        "18446744073709551614", "18446744073709551615", "18446744073709551616",
        "99999999999999999999999", "0.000000003725290298461914",
        "0.00000000372529029846191406250000000000000000000001",
        "0.00000000000000000000000000000000000000000000000000000001",
        "1.00000000000000011102230246251565404236316680908203125",
        "1.000000000000000111022302462515654042363166809082031250001",
    ];
    let units = ["ms", "s", "m", "h"];
    for number in numbers {
        for unit in units {
            let want = Dur::from_millis(machine_ms(number, unit));
            assert_eq!(parse(&format!("{number}{unit}")).unwrap(), want, "{number}{unit}");
        }
    }
    let mut seed: u64 = 11;
    for i in 0..3000usize {
        seed = seed.wrapping_mul(6364136223846793005).wrapping_add(1442695040888963407);
        let whole = seed >> (8 + i % 56);
        let number = format!("{whole}.{:0width$}", seed % 1_000_000_007, width = i % 13);
        let unit = units[i % 4];
        let want = Dur::from_millis(machine_ms(&number, unit));
        assert_eq!(parse(&format!("{number}{unit}")).unwrap(), want, "{number}{unit}");
    }
}
