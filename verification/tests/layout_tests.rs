use simpleterm::text::{split_lines, split_word, split_words, wrap, wrap_one};

fn strs(v: &[&str]) -> Vec<String> {
    v.iter().map(|s| s.to_string()).collect()
}

#[test]
fn split_lines_keeps_empty_segments() {
    assert_eq!(split_lines("a\n\nb"), strs(&["a", "", "b"]));
    assert_eq!(split_lines(""), strs(&[""]));
    assert_eq!(split_lines("one line"), strs(&["one line"]));
    assert_eq!(split_lines("tail\n"), strs(&["tail", ""]));
}

#[test]
fn split_words_drops_whitespace() {
    assert_eq!(split_words(" hello  world "), strs(&["hello", "world"]));
    assert_eq!(split_words("a\tb\rc"), strs(&["a", "b", "c"]));
    assert_eq!(split_words("   "), strs(&[]));
    assert_eq!(split_words(""), strs(&[]));
}

#[test]
fn long_word_splits_into_even_chunks() {
    // a single word longer than the bound is cut into ceil(10 / 4) chunks
    assert_eq!(split_word("abcdefghij", 4, 4), strs(&["abcd", "efgh", "ij"]));
}

#[test]
fn long_word_wraps_to_chunk_lines() {
    assert_eq!(wrap(&strs(&["abcdefghij"]), 4), strs(&["abcd", "efgh", "ij"]));
}

#[test]
fn split_word_uses_shorter_first_chunk() {
    assert_eq!(split_word("abcdefghij", 2, 4), strs(&["ab", "cdef", "ghij"]));
    assert_eq!(split_word("ab", 4, 4), strs(&["ab"]));
    assert_eq!(split_word("", 4, 4), strs(&[""]));
}

#[test]
fn wrap_gathers_words_up_to_the_bound() {
    assert_eq!(wrap(&strs(&["the quick brown fox"]), 10), strs(&["the quick", "brown fox"]));
}

#[test]
fn wrap_counts_the_joining_space() {
    // "abc" + space + "cd" would be six characters: it must not fit in five
    assert_eq!(wrap(&strs(&["abc cd"]), 5), strs(&["abc", "cd"]));
    assert_eq!(wrap(&strs(&["ab cd"]), 5), strs(&["ab cd"]));
}

#[test]
fn wrap_continues_a_line_with_a_sized_first_chunk() {
    // after "ab" and a joining space, two characters remain of the bound of
    // five, so the first chunk is "ob" and full chunks follow
    assert_eq!(
        wrap(&strs(&["ab obviouslylong"]), 5),
        strs(&["ab ob", "vious", "lylon", "g"])
    );
}

#[test]
fn wrap_emits_no_empty_line() {
    assert_eq!(wrap(&strs(&[""]), 5), strs(&[]));
    assert_eq!(wrap(&strs(&["   "]), 5), strs(&[]));
    assert_eq!(wrap(&strs(&["", "hi", ""]), 5), strs(&["hi"]));
}

#[test]
fn wrap_length_bound_holds_on_sample() {
    let text = strs(&["the quick brown fox jumps over thelazydogwithaverylongword", "and more"]);
    for max in 1..30usize {
        for line in wrap(&text, max) {
            assert!(line.chars().count() <= max);
        }
    }
}

#[test]
fn wrap_preserves_non_space_characters() {
    let text = strs(&["the quick brown fox jumps over thelazydogwithaverylongword", "", "x  y"]);
    let squash = |lines: &Vec<String>| -> String {
        lines
            .iter()
            .flat_map(|l| l.chars())
            .filter(|c| !c.is_whitespace())
            .collect()
    };
    for max in 1..30usize {
        assert_eq!(squash(&wrap(&text, max)), squash(&text));
    }
}

#[test]
fn wrap_is_idempotent_on_sample() {
    let text = strs(&["the quick brown fox jumps over thelazydogwithaverylongword", "tail"]);
    for max in 1..30usize {
        let once = wrap(&text, max);
        let twice = wrap(&once, max);
        assert_eq!(twice, once);
    }
}

#[test]
fn wrap_one_handles_a_single_line() {
    assert_eq!(wrap_one("a bb ccc", 4), strs(&["a bb", "ccc"]));
    assert_eq!(wrap_one("", 4), strs(&[]));
}
