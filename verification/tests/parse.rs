use mandelbrot::parse::{parse_integer, parse_pair, split_pair};

#[test]
fn test_parse_pair() {
    assert_eq!(parse_pair::<i32>("", ','), None);
    assert_eq!(parse_pair::<i32>("10", ','), None);
    assert_eq!(parse_pair::<i32>("10,", ','), None);
    assert_eq!(parse_pair::<i32>("10,20", ','), Some((10, 20)));
    assert_eq!(parse_pair::<i32>("10,20x", ','), None);
}

#[test]
fn parse_pair_reads_image_bounds() {
    assert_eq!(parse_pair::<usize>("1000x750", 'x'), Some((1000, 750)));
    assert_eq!(parse_pair::<usize>("1000,750", 'x'), None);
    assert_eq!(parse_pair::<usize>("x750", 'x'), None);
    assert_eq!(parse_pair::<usize>("-1x750", 'x'), None);
    assert_eq!(parse_pair::<usize>("+1x750", 'x'), Some((1, 750)));
}

#[test]
fn parse_pair_cuts_at_the_first_separator() {
    assert_eq!(parse_pair::<i32>("1,2,3", ','), None);
    assert_eq!(parse_pair::<i32>(",1", ','), None);
    assert_eq!(parse_pair::<i32>("-7,+8", ','), Some((-7, 8)));
    assert_eq!(parse_pair::<i32>(" 1,2", ','), None);
}

#[test]
fn parse_pair_agrees_with_the_standard_parser() {
    let sides = ["", "0", "-0", "+", "-", "007", "+12", "-12", "1_0", "12a", "2147483647",
                 "2147483648", "-2147483648", "-2147483649", "99999999999999999999999"];
    for l in sides.iter() {
        for r in sides.iter() {
            let s = format!("{},{}", l, r);
            let expected = match (l.parse::<i32>(), r.parse::<i32>()) {
                (Ok(a), Ok(b)) => Some((a, b)),
                _ => None,
            };
            assert_eq!(parse_pair::<i32>(&s, ','), expected);
            let expected = match (l.parse::<usize>(), r.parse::<usize>()) {
                (Ok(a), Ok(b)) => Some((a, b)),
                _ => None,
            };
            assert_eq!(parse_pair::<usize>(&s, ','), expected);
        }
    }
}

#[test]
fn split_pair_gives_both_sides() {
    assert_eq!(split_pair("1.25,-0.0625", ','), Some(("1.25", "-0.0625")));
    assert_eq!(split_pair(",1.0", ','), Some(("", "1.0")));
    assert_eq!(split_pair("10,", ','), Some(("10", "")));
    assert_eq!(split_pair("a,b,c", ','), Some(("a", "b,c")));
    assert_eq!(split_pair("10", ','), None);
    assert_eq!(split_pair("", ','), None);
    assert_eq!(split_pair("é×ü", '×'), Some(("é", "ü")));
}

#[test]
fn parse_integer_keeps_to_its_range() {
    assert_eq!(parse_integer("255", 0, 255), Some(255));
    assert_eq!(parse_integer("256", 0, 255), None);
    assert_eq!(parse_integer("-128", -128, 127), Some(-128));
    assert_eq!(parse_integer("-129", -128, 127), None);
    assert_eq!(parse_integer("128", -128, 127), None);
    assert_eq!(parse_integer("-1", 0, 255), None);
    assert_eq!(parse_integer("18446744073709551615", 0, u64::MAX as i128), Some(u64::MAX as i128));
    assert_eq!(parse_integer("18446744073709551616", 0, u64::MAX as i128), None);
    assert_eq!(parse_integer("", 0, 255), None);
}

#[test]
fn parse_pair_of_other_widths() {
    assert_eq!(parse_pair::<u32>("4294967295,0", ','), Some((u32::MAX, 0)));
    assert_eq!(parse_pair::<u32>("4294967296,0", ','), None);
    assert_eq!(parse_pair::<u64>("18446744073709551615:1", ':'), Some((u64::MAX, 1)));
    assert_eq!(parse_pair::<u64>("18446744073709551616:1", ':'), None);
    assert_eq!(
        parse_pair::<i64>("-9223372036854775808 9223372036854775807", ' '),
        Some((i64::MIN, i64::MAX))
    );
    assert_eq!(parse_pair::<i64>("-9223372036854775809 0", ' '), None);
}
