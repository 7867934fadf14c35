use native_extractor::extract_printable_strings;

fn owned(items: &[&str]) -> Vec<String> {
    items.iter().map(|s| s.to_string()).collect()
}

#[test]
fn test_extract_printable_strings() {
    let data = b"Hello\x00World\x00Test123\x00";
    let strings = extract_printable_strings(data, 3);
    assert!(strings.contains(&"Hello".to_string()));
    assert!(strings.contains(&"World".to_string()));
    assert!(strings.contains(&"Test123".to_string()));
}

#[test]
fn terminated_runs_come_out_in_order() {
    let strings = extract_printable_strings(b"Hello\x00World\x00Test123\x00", 3);
    assert_eq!(strings, owned(&["Hello", "World", "Test123"]));
}

#[test]
fn runs_below_the_threshold_are_dropped() {
    let strings = extract_printable_strings(b"ab\x00cd\x00", 3);
    assert_eq!(strings, Vec::<String>::new());
}

#[test]
fn empty_buffer_with_zero_threshold_gives_nothing() {
    let strings = extract_printable_strings(b"", 0);
    assert_eq!(strings, Vec::<String>::new());
}

#[test]
fn empty_buffer_gives_nothing_for_any_threshold() {
    for min_length in [0usize, 1, 2, 7, usize::MAX] {
        assert!(extract_printable_strings(&[], min_length).is_empty());
    }
}

#[test]
fn unterminated_run_is_flushed_at_the_end() {
    let strings = extract_printable_strings(b"OK", 1);
    assert_eq!(strings, owned(&["OK"]));
}

#[test]
fn trailing_run_follows_terminated_ones() {
    let strings = extract_printable_strings(b"abc\x01defgh", 3);
    assert_eq!(strings, owned(&["abc", "defgh"]));
}

#[test]
fn trailing_run_below_the_threshold_is_dropped() {
    let strings = extract_printable_strings(b"abcd\x00xy", 3);
    assert_eq!(strings, owned(&["abcd"]));
}

#[test]
fn buffer_without_printable_bytes_gives_nothing() {
    let data = [0u8, 1, 9, 10, 13, 31, 127, 128, 200, 255];
    for min_length in [0usize, 1, 4] {
        assert!(extract_printable_strings(&data, min_length).is_empty());
    }
}

#[test]
fn zero_threshold_reports_every_run_and_no_empty_string() {
    let strings = extract_printable_strings(b"\x00\x00a\x00\x00bc\x00", 0);
    assert_eq!(strings, owned(&["a", "bc"]));
    let only_breaks = extract_printable_strings(b"\x00", 0);
    assert!(only_breaks.is_empty());
}

#[test]
fn threshold_is_inclusive() {
    assert_eq!(extract_printable_strings(b"abc\x00", 3), owned(&["abc"]));
    assert_eq!(extract_printable_strings(b"abc\x00", 4), Vec::<String>::new());
    assert_eq!(extract_printable_strings(b"abc", 3), owned(&["abc"]));
    assert_eq!(extract_printable_strings(b"abc", 4), Vec::<String>::new());
}

#[test]
fn space_and_tilde_are_printable_and_their_neighbours_are_not() {
    let data = [31u8, 32, 126, 127];
    assert_eq!(extract_printable_strings(&data, 1), owned(&[" ~"]));
    let every_byte: Vec<u8> = (0u8..=255).collect();
    let strings = extract_printable_strings(&every_byte, 1);
    assert_eq!(strings.len(), 1);
    let expected: String = (32u8..=126).map(|b| b as char).collect();
    assert_eq!(strings[0], expected);
    assert_eq!(strings[0].len(), 95);
}

#[test]
fn high_bytes_break_runs() {
    let data = [b'a', b'b', 0x80, b'c', b'd', 0xff, b'e'];
    assert_eq!(extract_printable_strings(&data, 2), owned(&["ab", "cd"]));
    assert_eq!(extract_printable_strings(&data, 1), owned(&["ab", "cd", "e"]));
}

#[test]
fn control_characters_break_runs() {
    let strings = extract_printable_strings(b"key=value\nnext line\ttabbed\r\n", 1);
    assert_eq!(strings, owned(&["key=value", "next line", "tabbed"]));
}

#[test]
fn adjacent_breaks_count_once() {
    let strings = extract_printable_strings(b"\x00\x00\x00one\x00\x00\x00two\x00\x00\x00", 1);
    assert_eq!(strings, owned(&["one", "two"]));
}

#[test]
fn whole_buffer_can_be_one_run() {
    let data = b"a single run with nothing around it";
    let strings = extract_printable_strings(data, data.len());
    assert_eq!(strings, owned(&["a single run with nothing around it"]));
    assert!(extract_printable_strings(data, data.len() + 1).is_empty());
}

#[test]
fn huge_threshold_gives_nothing() {
    assert!(extract_printable_strings(b"some text\x00more text", usize::MAX).is_empty());
}

fn sample_buffers() -> Vec<Vec<u8>> {
    let mut buffers: Vec<Vec<u8>> = vec![
        Vec::new(),
        b"OK".to_vec(),
        b"\x00".to_vec(),
        b"Hello\x00World\x00Test123\x00".to_vec(),
        b"ab\x00cd\x00".to_vec(),
        b"\x7f~ \x1f!\x80end".to_vec(),
        (0u8..=255).collect(),
        (0u8..=255).rev().collect(),
    ];
    let mut state: u32 = 0x2545_f491;
    for round in 0..40 {
        let mut buffer = Vec::new();
        for _ in 0..(round * 3) {
            state = state.wrapping_mul(1_664_525).wrapping_add(1_013_904_223);
            let byte = (state >> 24) as u8;
            buffer.push(if round % 2 == 0 { byte } else { 28 + byte % 8 });
        }
        buffers.push(buffer);
    }
    buffers
}

#[test]
fn every_string_is_long_enough_and_printable() {
    for data in sample_buffers() {
        for min_length in 0usize..6 {
            for string in extract_printable_strings(&data, min_length) {
                assert!(string.len() >= min_length);
                assert!(!string.is_empty());
                assert!(string.bytes().all(|b| (32..=126).contains(&b)));
                assert_eq!(string.chars().count(), string.len());
            }
        }
    }
}

#[test]
fn joined_strings_are_a_subsequence_of_the_buffer() {
    for data in sample_buffers() {
        for min_length in 0usize..6 {
            let joined: String = extract_printable_strings(&data, min_length).concat();
            let mut rest = data.iter();
            for wanted in joined.bytes() {
                assert!(rest.any(|&b| b == wanted));
            }
        }
    }
}

#[test]
fn extraction_is_repeatable() {
    for data in sample_buffers() {
        for min_length in 0usize..6 {
            let first = extract_printable_strings(&data, min_length);
            let second = extract_printable_strings(&data, min_length);
            assert_eq!(first, second);
        }
    }
}

#[test]
fn extraction_agrees_with_splitting_at_unprintable_bytes() {
    for data in sample_buffers() {
        for min_length in 0usize..6 {
            let expected: Vec<String> = data
                .split(|b| !(32..=126).contains(b))
                .filter(|run| !run.is_empty() && run.len() >= min_length)
                .map(|run| run.iter().map(|&b| b as char).collect())
                .collect();
            assert_eq!(extract_printable_strings(&data, min_length), expected);
        }
    }
}

#[test]
fn a_raised_threshold_only_removes_strings() {
    for data in sample_buffers() {
        let all = extract_printable_strings(&data, 0);
        for min_length in 1usize..6 {
            let kept: Vec<String> =
                all.iter().filter(|s| s.len() >= min_length).cloned().collect();
            assert_eq!(extract_printable_strings(&data, min_length), kept);
        }
    }
}
