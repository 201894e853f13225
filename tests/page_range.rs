use pdf_render::error::Error;
use pdf_render::page_range::{divide_pages, format_page_list, parse_page_range};

#[test]
fn parse_single_page() {
    assert_eq!(parse_page_range("5", 10).unwrap(), vec![5]);
}

#[test]
fn parse_range() {
    assert_eq!(parse_page_range("1-5", 10).unwrap(), vec![1, 2, 3, 4, 5]);
}

#[test]
fn parse_mixed() {
    assert_eq!(
        parse_page_range("1-3,7,9-10", 10).unwrap(),
        vec![1, 2, 3, 7, 9, 10]
    );
}

#[test]
fn parse_dedup() {
    assert_eq!(
        parse_page_range("1-5,3-7", 10).unwrap(),
        vec![1, 2, 3, 4, 5, 6, 7]
    );
}

#[test]
fn parse_exceeds_max() {
    assert!(parse_page_range("1-11", 10).is_err());
}

#[test]
fn parse_zero_page() {
    assert!(parse_page_range("0", 10).is_err());
}

#[test]
fn divide_evenly() {
    assert_eq!(divide_pages(12, 4), vec![(1, 3), (4, 6), (7, 9), (10, 12)]);
}

#[test]
fn divide_with_remainder() {
    assert_eq!(divide_pages(10, 3), vec![(1, 4), (5, 7), (8, 10)]);
}

#[test]
fn divide_more_workers_than_pages() {
    assert_eq!(divide_pages(2, 5), vec![(1, 1), (2, 2)]);
}

#[test]
fn parse_reversed_range_fails() {
    assert!(matches!(parse_page_range("5-2", 10), Err(Error::InvalidArgs(_))));
}

#[test]
fn parse_errors_are_invalid_args() {
    for bad in ["1-11", "0", "5-2", "x", "1,,2", "1-", "-3", "3-0", "1-2-3"] {
        assert!(
            matches!(parse_page_range(bad, 10), Err(Error::InvalidArgs(_))),
            "{bad}"
        );
    }
}

#[test]
fn parse_empty_input_selects_nothing() {
    assert_eq!(parse_page_range("", 10).unwrap(), Vec::<u32>::new());
}

#[test]
fn parse_trims_whitespace_and_plus_sign() {
    assert_eq!(parse_page_range(" 2 , 4 - 5,+7", 10).unwrap(), vec![2, 4, 5, 7]);
}

#[test]
fn parse_output_sorted_and_within_bounds() {
    let v = parse_page_range("9,3-4,1,4-6,10", 10).unwrap();
    assert_eq!(v, vec![1, 3, 4, 5, 6, 9, 10]);
    assert!(v.windows(2).all(|w| w[0] < w[1]));
    assert!(v.iter().all(|&p| 1 <= p && p <= 10));
}

#[test]
fn parse_largest_page() {
    assert_eq!(
        parse_page_range("4294967295", u32::MAX).unwrap(),
        vec![u32::MAX]
    );
    assert!(parse_page_range("4294967296", u32::MAX).is_err());
}

#[test]
fn divide_zero_cases() {
    assert_eq!(divide_pages(0, 4), vec![]);
    assert_eq!(divide_pages(7, 0), vec![]);
}

#[test]
fn divide_covers_all_pages_with_balanced_sizes() {
    for total in 1..40u32 {
        for workers in 1..12u32 {
            let chunks = divide_pages(total, workers);
            assert_eq!(chunks.len() as u32, workers.min(total));
            assert_eq!(chunks[0].0, 1);
            assert_eq!(chunks.last().unwrap().1, total);
            for w in chunks.windows(2) {
                assert_eq!(w[1].0, w[0].1 + 1);
                let a = w[0].1 - w[0].0;
                let b = w[1].1 - w[1].0;
                assert!(a == b || a == b + 1);
            }
        }
    }
}

#[test]
fn divide_largest_total() {
    let chunks = divide_pages(u32::MAX, 2);
    assert_eq!(chunks, vec![(1, 2147483648), (2147483649, u32::MAX)]);
}

#[test]
fn format_runs_and_singletons() {
    assert_eq!(format_page_list(&[1, 2, 3, 7, 9, 10]), "1-3,7,9-10");
    assert_eq!(format_page_list(&[5]), "5");
    assert_eq!(format_page_list(&[]), "");
    assert_eq!(format_page_list(&[12, 13]), "12-13");
}

#[test]
fn format_then_parse_round_trips() {
    for spec in ["1-5,3-7", "1", "2,4,6", "1-3,7,9-10", "10", "1-10"] {
        let pages = parse_page_range(spec, 10).unwrap();
        let text = format_page_list(&pages);
        assert_eq!(parse_page_range(&text, 10).unwrap(), pages);
    }
}
