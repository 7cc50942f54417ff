use gold_miner::settings::parse_u64;
use gold_miner::text::{final_label, max_label, push_decimal, sum_label, sum_of};

fn text(bytes: &[u8]) -> String {
    String::from_utf8(bytes.to_vec()).unwrap()
}

#[test]
fn max_label_shows_the_number_between_arrows() {
    assert_eq!(text(&max_label(5)), "Max : 5 ->");
    assert_eq!(text(&max_label(0)), "Max : 0 ->");
    assert_eq!(text(&max_label(65535)), "Max : 65535 ->");
}

#[test]
fn final_label_shows_the_number_after_the_question_mark() {
    assert_eq!(text(&final_label(12)), "Final Maximum : ?12");
    assert_eq!(text(&final_label(0)), "Final Maximum : ?0");
}

#[test]
fn sum_label_of_a_partial_walk_lists_the_numbers() {
    assert_eq!(text(&sum_label(&vec![3, 15], 4)), "3 + 15 + ");
    assert_eq!(text(&sum_label(&vec![], 4)), "");
}

#[test]
fn sum_label_of_a_full_walk_ends_with_the_sum() {
    assert_eq!(text(&sum_label(&vec![3, 15, 200], 3)), "3 + 15 + 200  = 218");
    assert_eq!(text(&sum_label(&vec![9], 1)), "9  = 9");
}

#[test]
fn sum_of_adds_the_numbers() {
    assert_eq!(sum_of(&vec![]), 0);
    assert_eq!(sum_of(&vec![255; 257]), 65535);
    assert_eq!(sum_of(&vec![1, 2, 3]), 6);
    assert_eq!(sum_of(&vec![0; 1000]), 0);
}

#[test]
fn decimal_digits_read_back() {
    for n in [0u64, 7, 10, 99, 255, 1000, 65535, u64::MAX] {
        let mut v = Vec::new();
        push_decimal(&mut v, n);
        assert_eq!(text(&v), n.to_string());
        assert_eq!(parse_u64(&v), Some(n));
    }
}
