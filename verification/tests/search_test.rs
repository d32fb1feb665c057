use dynstr::pattern::compute_lps_array;
use dynstr::indexed::search;
use dynstr::Chunk;
use dynstr::DynamicString;
use dynstr::IndexedString;
use dynstr::KMPPatternFinder;
use dynstr::PatternFinder;
use std::sync::Arc;

fn all(text: &str, pattern: &str) -> Vec<usize> {
    PatternFinder::all(DynamicString::new(text), DynamicString::new(pattern))
}

fn naive(text: &str, pattern: &str) -> Vec<usize> {
    let t: Vec<u16> = text.encode_utf16().collect();
    let p: Vec<u16> = pattern.encode_utf16().collect();
    let mut found = Vec::new();
    let mut at = 0;
    while at + p.len() <= t.len() {
        if t[at..at + p.len()] == p[..] {
            found.push(at);
        }
        at += 1;
    }
    found
}

fn split_to_strings(text: &str, separator: &str, limit: Option<usize>) -> Vec<String> {
    DynamicString::new(text)
        .split(DynamicString::new(separator), limit)
        .iter()
        .map(|piece| String::from(piece))
        .collect()
}

#[test]
fn finder_follows_the_table_of_cases() {
    assert_eq!(all("", ""), vec![0]);
    assert_eq!(all("abc", ""), vec![0, 1, 2]);
    assert_eq!(all("", "abc"), Vec::<usize>::new());
    assert_eq!(all("ab", "abc"), Vec::<usize>::new());
    assert_eq!(all("abc", "abc"), vec![0]);
    assert_eq!(all("abc", "abd"), Vec::<usize>::new());
    assert_eq!(all("xabcx", "abc"), vec![1]);
    assert_eq!(all("xabcx", "abd"), Vec::<usize>::new());
}

#[test]
fn finder_yields_every_occurrence_in_order() {
    assert_eq!(all("aaaa", "aa"), vec![0, 1, 2]);
    assert_eq!(all("abababab", "abab"), vec![0, 2, 4]);
    assert_eq!(all("AABAACAADAABAABA", "AABA"), vec![0, 9, 12]);
    assert_eq!(all("a😴b😴", "😴"), vec![1, 4]);
    for (text, pattern) in [
        ("Hello world, I live in a world.", "world"),
        ("aaaaaaaaaa", "aaa"),
        ("abcabcabcabd", "abcabd"),
        ("mississippi", "issi"),
        ("mississippi", "ss"),
        ("mississippi", "x"),
        ("abc", "c"),
    ] {
        assert_eq!(all(text, pattern), naive(text, pattern));
    }
}

#[test]
fn finder_is_lazy() {
    let mut finder = PatternFinder::new(DynamicString::new("abcabcabc"), DynamicString::new("bc"));
    assert_eq!(finder.next(), Some(1));
    assert_eq!(finder.next(), Some(4));
    assert_eq!(finder.next(), Some(7));
    assert_eq!(finder.next(), None);
    assert_eq!(finder.next(), None);

    let mut kmp = KMPPatternFinder::new(DynamicString::new("aXaXa"), DynamicString::new("aXa"));
    assert_eq!(kmp.next(), Some(0));
    assert_eq!(kmp.next(), Some(2));
    assert_eq!(kmp.next(), None);
    assert_eq!(kmp.next(), None);
}

#[test]
fn finder_searches_ropes_of_any_shape() {
    let text = DynamicString::new("Hello wor")
        .append(DynamicString::new("ld, I live in a world."))
        .slice(3, 28);
    let pattern = DynamicString::ConsString {
        first: Box::new(DynamicString::new("wor")),
        second: Box::new(DynamicString::new("ld")),
    };
    assert_eq!(String::from(&text), "lo world, I live in a world.");
    assert_eq!(PatternFinder::all(text, pattern), vec![3, 22]);
}

#[test]
fn longest_border_table() {
    let table = |pattern: &str| compute_lps_array(&IndexedString::new(DynamicString::new(pattern)));
    assert_eq!(table("a"), vec![0]);
    assert_eq!(table("AAAA"), vec![0, 1, 2, 3]);
    assert_eq!(table("ABCDE"), vec![0, 0, 0, 0, 0]);
    assert_eq!(table("AABAACAABAA"), vec![0, 1, 0, 1, 2, 0, 1, 2, 3, 4, 5]);
    assert_eq!(table("AAACAAAAAC"), vec![0, 1, 2, 0, 1, 2, 3, 3, 3, 4]);
    assert_eq!(table("AAABAAA"), vec![0, 1, 2, 0, 1, 2, 3]);
}

#[test]
fn binary_search_finds_the_chunk() {
    let chunks = vec![
        (0, Chunk::Char(0x61)),
        (1, Chunk::SeqOneByteString { vec: Arc::new(vec![0x30, 0x31, 0x32, 0x33]), start: 1 }),
        (4, Chunk::SeqTwoByteString { vec: Arc::new(vec![0x100, 0x101]), start: 0 }),
    ];
    assert_eq!(search(&chunks, 0), 0);
    assert_eq!(search(&chunks, 1), 1);
    assert_eq!(search(&chunks, 3), 1);
    assert_eq!(search(&chunks, 4), 2);
    assert_eq!(search(&chunks, 5), 2);
    assert_eq!(chunks[0].1.get(0), 0x61);
    assert_eq!(chunks[1].1.get(0), 0x31);
    assert_eq!(chunks[1].1.get(2), 0x33);
    assert_eq!(chunks[2].1.get(1), 0x101);
}

#[test]
fn index_of_gives_the_first_occurrence() {
    let text = DynamicString::new("Hello world, I live in a world.");
    assert_eq!(text.index_of(DynamicString::new("world")), Some(6));
    assert_eq!(text.index_of(DynamicString::new("world.")), Some(25));
    assert_eq!(text.index_of(DynamicString::new("world!")), None);
    assert_eq!(text.index_of(DynamicString::new("H")), Some(0));
    assert_eq!(text.index_of(text.clone()), Some(0));
    assert_eq!(DynamicString::new("").index_of(DynamicString::new("a")), None);
}

#[test]
fn index_of_an_empty_pattern_is_zero() {
    assert_eq!(DynamicString::new("").index_of(DynamicString::new("")), Some(0));
    assert_eq!(DynamicString::new("ABC").index_of(DynamicString::empty()), Some(0));
}

#[test]
fn starts_with_tests_the_prefix() {
    let text = DynamicString::new("Hello world");
    assert!(text.starts_with(DynamicString::new("")));
    assert!(text.starts_with(DynamicString::new("H")));
    assert!(text.starts_with(DynamicString::new("Hello")));
    assert!(text.starts_with(DynamicString::new("Hello world")));
    assert!(!text.starts_with(DynamicString::new("Hello world!")));
    assert!(!text.starts_with(DynamicString::new("hello")));
    assert!(!text.starts_with(DynamicString::new("ello")));
    assert!(DynamicString::empty().starts_with(DynamicString::empty()));
    assert!(!DynamicString::empty().starts_with(DynamicString::new("a")));
}

#[test]
fn split_at_a_separator() {
    assert_eq!(split_to_strings("Jack,Joe,John", ",", None), vec!["Jack", "Joe", "John"]);
    assert_eq!(split_to_strings("Jack,Joe,John", ",", Some(1)), vec!["Jack"]);
    assert_eq!(split_to_strings("Jack,Joe,John", ",", Some(2)), vec!["Jack", "Joe"]);
    assert_eq!(split_to_strings("Jack,Joe,John", ",", Some(3)), vec!["Jack", "Joe", "John"]);
    assert_eq!(split_to_strings("Jack,Joe,John", ",", Some(9)), vec!["Jack", "Joe", "John"]);
    assert_eq!(split_to_strings("Jack,Joe,John", ";", None), vec!["Jack,Joe,John"]);
    assert_eq!(split_to_strings(",a,,b", ",", None), vec!["", "a", "", "b"]);
    assert_eq!(split_to_strings("a,b,", ",", None), vec!["a", "b"]);
    assert_eq!(split_to_strings(",", ",", None), vec![""]);
    assert_eq!(split_to_strings("aaa", "aa", None), vec!["", "a"]);
    assert_eq!(split_to_strings("aaaa", "aa", None), vec!["", ""]);
}

#[test]
fn split_with_a_limit() {
    assert_eq!(split_to_strings("Jack,Joe,John", ",", Some(0)), Vec::<String>::new());
    assert_eq!(split_to_strings("", "", Some(0)), Vec::<String>::new());
    assert_eq!(split_to_strings("", "A", Some(0)), Vec::<String>::new());
    assert_eq!(split_to_strings("", "A", Some(1)), vec![""]);
    assert_eq!(split_to_strings("ABC", "", Some(2)), vec!["A", "B"]);
    assert_eq!(split_to_strings("ABC", "", Some(1)), vec!["A"]);
    for limit in 0..6 {
        let pieces = split_to_strings("a,b,c,d", ",", Some(limit));
        assert_eq!(pieces.len(), std::cmp::min(limit, 4));
    }
}

#[test]
fn split_at_the_empty_separator() {
    assert_eq!(split_to_strings("ABC", "", None), vec!["A", "B", "C"]);
    assert_eq!(split_to_strings("", "", None), Vec::<String>::new());
    assert_eq!(split_to_strings("", "ABC", None), vec![""]);
    assert_eq!(split_to_strings("A", "", None), vec!["A"]);
}

#[test]
fn joining_the_pieces_gives_the_text() {
    for (text, separator) in [
        ("Jack,Joe,John", ","),
        ("01#-;23#-;45", "#-;"),
        (",a,,b", ","),
        ("no separator here", "#"),
        ("ABC", ""),
        ("", ""),
        ("", "x"),
        ("aaa", "aa"),
        ("a😴b😴c", "😴"),
    ] {
        assert_eq!(split_to_strings(text, separator, None).join(separator), text);
    }
    assert_eq!(split_to_strings("a,b,", ",", None).join(",") + ",", "a,b,");
    assert_eq!(split_to_strings("aaaa", "aa", None).join("aa") + "aa", "aaaa");
}

#[test]
fn long_pieces_are_views_of_the_text() {
    let text = DynamicString::new("a rather long first piece|x|another rather long piece");
    let pieces = text.split(DynamicString::new("|"), None);
    assert_eq!(pieces.len(), 3);
    assert!(matches!(pieces[0], DynamicString::SlicedString { start: 0, length: 25, .. }));
    assert!(matches!(pieces[1], DynamicString::SingleOneByteChar(0x78)));
    assert!(matches!(pieces[2], DynamicString::SlicedString { start: 28, length: 25, .. }));
}
