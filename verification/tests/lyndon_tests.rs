use lyndon::search::leftmost_distinct_characters;
use lyndon::search::longest_lyndon_subsequence;
use lyndon::search::subsequence;

#[test]
fn test_lyndon_subsequence() {
    assert_eq!(
        subsequence(b"bccadbaccbcd", &longest_lyndon_subsequence(b"bccadbaccbcd")),
        b"bccbccbcd"
    );
    assert_eq!(
        subsequence(b"bccadbaccbc", &longest_lyndon_subsequence(b"bccadbaccbc")),
        b"abaccbc"
    );
    assert_eq!(
        subsequence(b"bccadbaccb", &longest_lyndon_subsequence(b"bccadbaccb")),
        b"abaccb"
    );
    assert_eq!(
        subsequence(b"bccadbacc", &longest_lyndon_subsequence(b"bccadbacc")),
        b"bccdcc"
    );
    assert_eq!(subsequence(b"a", &longest_lyndon_subsequence(b"a")), b"a");
    assert_eq!(subsequence(b"aa", &longest_lyndon_subsequence(b"aa")), b"a");
    assert_eq!(subsequence(b"aaa", &longest_lyndon_subsequence(b"aaa")), b"a");
    assert_eq!(
        subsequence(b"aaab", &longest_lyndon_subsequence(b"aaab")),
        b"aaab"
    );
    assert_eq!(
        subsequence(b"aaaba", &longest_lyndon_subsequence(b"aaaba")),
        b"aaab"
    );
}

#[test]
fn empty_input_gives_empty_result() {
    assert_eq!(longest_lyndon_subsequence(b"").len(), 0);
    assert_eq!(subsequence(b"", &longest_lyndon_subsequence(b"")), b"");
}

#[test]
fn result_is_an_ordered_subsequence_of_the_input() {
    let text = b"bccadbaccbcd";
    let result = longest_lyndon_subsequence(text);
    assert!(!result.is_empty());
    for (k, el) in result.iter().enumerate() {
        assert!(el.text_pos < text.len());
        assert!(el.period >= 1 && el.period <= k + 1);
        if k > 0 {
            assert!(result[k - 1].text_pos < el.text_pos);
        }
    }
}

#[test]
fn rerunning_the_search_gives_identical_output() {
    let inputs: [&[u8]; 4] = [b"bccadbaccbcd", b"aaaba", b"zyx", b"mississippi"];
    for text in inputs {
        let first = subsequence(text, &longest_lyndon_subsequence(text));
        let second = subsequence(text, &longest_lyndon_subsequence(text));
        assert_eq!(first, second);
    }
}

#[test]
fn rerunning_the_projection_gives_identical_bytes() {
    let text = b"bccadbacc";
    let result = longest_lyndon_subsequence(text);
    let first = subsequence(text, &result);
    let second = subsequence(text, &result);
    assert_eq!(first, second);
}

#[test]
fn largest_byte_value_is_handled() {
    assert_eq!(
        subsequence(&[255u8], &longest_lyndon_subsequence(&[255u8])),
        [255u8]
    );
    assert_eq!(
        subsequence(&[255u8, 255u8], &longest_lyndon_subsequence(&[255u8, 255u8])),
        [255u8]
    );
    assert_eq!(
        subsequence(&[254u8, 255u8], &longest_lyndon_subsequence(&[254u8, 255u8])),
        [254u8, 255u8]
    );
    assert_eq!(
        subsequence(
            &[255u8, 0u8, 255u8],
            &longest_lyndon_subsequence(&[255u8, 0u8, 255u8])
        ),
        [0u8, 255u8]
    );
}

#[test]
fn leftmost_distinct_characters_lists_leftmost_positions_by_value() {
    assert_eq!(leftmost_distinct_characters(b"banana"), vec![1, 0, 2]);
    assert_eq!(leftmost_distinct_characters(b""), Vec::<usize>::new());
    assert_eq!(leftmost_distinct_characters(b"cccc"), vec![0]);
    assert_eq!(leftmost_distinct_characters(b"dcba"), vec![3, 2, 1, 0]);
}

#[test]
fn successor_element_finds_smallest_qualifying_value_leftmost() {
    let text = b"banana";
    assert_eq!(lyndon::search::successor_element(text, 1, b'b'), Some(2));
    assert_eq!(lyndon::search::successor_element(text, 1, b'a'), Some(1));
    assert_eq!(lyndon::search::successor_element(text, 1, b'o'), None);
    assert_eq!(lyndon::search::successor_element(text, 6, b'a'), None);
    assert_eq!(lyndon::search::successor_element(text, 0, 0u8), Some(1));
}

fn is_lyndon_bytes(w: &[u8]) -> bool {
    if w.is_empty() {
        return false;
    }
    for k in 1..w.len() {
        let rotation: Vec<u8> = w[k..].iter().chain(w[..k].iter()).copied().collect();
        if w >= &rotation[..] {
            return false;
        }
    }
    true
}

fn longest_lyndon_length_brute_force(text: &[u8]) -> usize {
    let mut max_len = 0;
    for mask in 1u32..(1u32 << text.len()) {
        let picked: Vec<u8> = (0..text.len())
            .filter(|k| mask & (1 << k) != 0)
            .map(|k| text[k])
            .collect();
        if picked.len() > max_len && is_lyndon_bytes(&picked) {
            max_len = picked.len();
        }
    }
    max_len
}

#[test]
fn result_length_is_maximal_brute_force() {
    let inputs: [&[u8]; 6] = [
        b"bccadbaccbcd",
        b"bccadbacc",
        b"aaaba",
        b"banana",
        b"zyxzyx",
        b"abcabcabc",
    ];
    for text in inputs {
        assert_eq!(
            longest_lyndon_subsequence(text).len(),
            longest_lyndon_length_brute_force(text)
        );
    }
}
