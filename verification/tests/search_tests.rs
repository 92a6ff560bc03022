use fuzzies::text::trim;
use fuzzies::{BestMatches, Dictionary, DictionaryBuilder, DictionaryError, SearchResult};

fn create_test_dict(words: &[&str]) -> Dictionary {
    let mut sorted: Vec<String> = words.iter().map(|w| w.to_string()).collect();
    Dictionary::sort_lines(&mut sorted);

    let mut build = DictionaryBuilder::new();
    for word in &sorted {
        build.insert_line(word).unwrap();
    }
    build.into_dictionary().unwrap()
}

fn keys_of(results: &[SearchResult]) -> Vec<&str> {
    results.iter().map(|r| r.key.as_str()).collect()
}

#[test]
fn test_dictionary_search() {
    let dict = create_test_dict(&["apple", "banana", "lime", "time", "mime", "cherry"]);

    // Exact match
    let results = dict.search("apple").execute().unwrap();
    assert_eq!(keys_of(&results), vec!["apple"]);

    // Levenshtein distance of 1 (substitution)
    let results = dict.search("baxana").execute().unwrap();
    assert_eq!(keys_of(&results), vec!["banana"]);

    // Levenshtein distance of 1 (deletion/substitution)
    let results = dict.search("cheriy").execute().unwrap();
    assert_eq!(keys_of(&results), vec!["cherry"]);

    // Dynamic distance of 2
    let results = dict.search("baxaxa").distance(2).execute().unwrap();
    assert_eq!(keys_of(&results), vec!["banana"]);

    // Out of bounds (> 1 distance)
    let results = dict.search("ap").execute().unwrap();
    assert!(results.is_empty());

    // With limit of 3
    let results = dict.search("mime").limit(3).execute().unwrap();
    assert_eq!(keys_of(&results), vec!["mime", "lime", "time"]);

    // Transposition
    let results = dict
        .search("banaan")
        .limit(1)
        .transposition(true)
        .execute()
        .unwrap();
    assert_eq!(keys_of(&results), vec!["banana"]);
}

#[test]
fn test_batch_search() {
    let dict = create_test_dict(&["apple", "banana", "cherry"]);

    let batch_queries: Vec<&str> = (0..10)
        .map(|i| if i % 2 == 0 { "word0050" } else { "baxana" })
        .collect();

    let results = dict.batch_search(&batch_queries);
    // Should receive 10 responses
    assert_eq!(results.len(), 10);

    for (i, res) in results.into_iter().enumerate() {
        let matches = res.expect("Search thread panicked or errored unexpectedly");

        if i % 2 == 0 {
            // "word0050" is outside Levenshtein distance 1 for all items
            assert!(matches.is_empty(), "Expected empty results for index {}", i);
        } else {
            // "baxana" should successfully resolve to "banana"
            assert_eq!(matches.len(), 1, "Expected exactly 1 match for index {}", i);
            assert_eq!(matches[0].key, "banana");
            assert_eq!(matches[0].is_exact, false);
        }
    }
}

#[test]
fn test_dictionary_sort() {
    let mut lines = vec!["ßé".to_string(), "àé".to_string(), "🤣".to_string()];

    Dictionary::sort_lines(&mut lines);

    // Byte order: "ß" is C3 9F, "à" is C3 A0, "🤣" starts with F0.
    assert_eq!(
        lines,
        vec!["ßé".to_string(), "àé".to_string(), "🤣".to_string(),]
    );
}

#[test]
fn test_path_generics() {
    // The word list "apple\nbanana\ncherry", built and opened in memory.
    let mut build = DictionaryBuilder::new();
    for line in "apple\nbanana\ncherry".lines() {
        build.insert_line(line).unwrap();
    }
    let bytes = build.finish();

    let dict1 = Dictionary::from_bytes(bytes.clone()).unwrap();
    assert_eq!(dict1.search("apple").execute().unwrap().len(), 1);

    let dict2 = Dictionary::from_bytes(bytes.clone()).unwrap();
    assert_eq!(dict2.search("baxana").execute().unwrap()[0].key, "banana");

    let dict3 = Dictionary::from_bytes(bytes.clone()).unwrap();
    assert_eq!(dict3.search("cheriy").execute().unwrap().len(), 1);

    let dict4 = Dictionary::from_bytes(bytes).unwrap();
    assert!(!dict4.search("cherry").execute().unwrap().is_empty());
}

#[test]
fn test_distance_priority_over_alphabetical() {
    let dict = create_test_dict(&["east", "fest"]);

    let results = dict.search("test").distance(2).limit(2).execute().unwrap();

    // "fest" should come first: a distance of 1 is a better match than 2.
    assert_eq!(keys_of(&results), vec!["fest", "east"]);
}

#[test]
fn exact_match_reports_distance_zero() {
    let dict = create_test_dict(&["apple", "apply", "ample"]);
    let results = dict.search("apple").execute().unwrap();
    assert_eq!(results[0].key, "apple");
    assert_eq!(results[0].distance, 0);
    assert!(results[0].is_exact);
    for r in &results[1..] {
        assert_eq!(r.distance, 1);
        assert!(!r.is_exact);
    }
    assert_eq!(keys_of(&results), vec!["apple", "ample", "apply"]);
}

#[test]
fn results_sorted_by_distance_then_key() {
    let dict = create_test_dict(&["cat", "bat", "cart", "at", "cats", "dog", "c"]);
    let results = dict.search("cat").distance(2).limit(10).execute().unwrap();
    assert_eq!(keys_of(&results), vec!["cat", "at", "bat", "cart", "cats", "c"]);
    let distances: Vec<u8> = results.iter().map(|r| r.distance).collect();
    assert_eq!(distances, vec![0, 1, 1, 1, 1, 2]);
    for pair in results.windows(2) {
        assert!(
            pair[0].distance < pair[1].distance
                || (pair[0].distance == pair[1].distance && pair[0].key < pair[1].key)
        );
    }
}

#[test]
fn lower_limit_gives_prefix() {
    let dict = create_test_dict(&["cat", "bat", "cart", "at", "cats", "dog", "c"]);
    let all = dict.search("cat").distance(2).limit(10).execute().unwrap();
    for limit in 0..8usize {
        let some = dict.search("cat").distance(2).limit(limit).execute().unwrap();
        let expected = if limit < all.len() { limit } else { all.len() };
        assert_eq!(some.len(), expected);
        assert_eq!(&some[..], &all[..expected]);
    }
}

#[test]
fn limit_zero_returns_nothing() {
    let dict = create_test_dict(&["apple", "banana"]);
    let results = dict.search("apple").limit(0).execute().unwrap();
    assert!(results.is_empty());
}

#[test]
fn distance_is_capped_at_two() {
    let dict = create_test_dict(&["abcdef", "abc"]);
    // "abcdef" is 3 edits away from "abc": out of reach even when asking for 9.
    let results = dict.search("abc").distance(9).limit(10).execute().unwrap();
    assert_eq!(keys_of(&results), vec!["abc"]);
    let results = dict.search("abcd").distance(9).limit(10).execute().unwrap();
    assert_eq!(keys_of(&results), vec!["abc", "abcdef"]);
    assert_eq!(results[1].distance, 2);
}

#[test]
fn transposition_counts_as_one_edit_only_when_asked() {
    let dict = create_test_dict(&["the"]);
    assert!(dict.search("teh").execute().unwrap().is_empty());
    let results = dict.search("teh").transposition(true).execute().unwrap();
    assert_eq!(keys_of(&results), vec!["the"]);
    assert_eq!(results[0].distance, 1);
}

#[test]
fn empty_dictionary_finds_nothing() {
    let dict = DictionaryBuilder::new().into_dictionary().unwrap();
    assert!(dict.search("anything").execute().unwrap().is_empty());
}

#[test]
fn builder_trims_lines_and_skips_blank_ones() {
    let mut build = DictionaryBuilder::new();
    build.insert_line("  apple \n").unwrap();
    build.insert_line("   \n").unwrap();
    build.insert_line("\tbanana\r\n").unwrap();
    let dict = Dictionary::from_bytes(build.finish()).unwrap();
    let results = dict.search("apple").execute().unwrap();
    assert_eq!(keys_of(&results), vec!["apple"]);
    assert!(results[0].is_exact);
    let results = dict.search("banana").execute().unwrap();
    assert_eq!(keys_of(&results), vec!["banana"]);
    assert!(results[0].is_exact);
}

#[test]
fn builder_keeps_repeated_key_once() {
    let mut build = DictionaryBuilder::new();
    build.insert_line("apple").unwrap();
    build.insert_line("apple").unwrap();
    build.insert_line(" apple").unwrap();
    let dict = Dictionary::from_bytes(build.finish()).unwrap();
    let results = dict.search("apple").limit(10).execute().unwrap();
    assert_eq!(keys_of(&results), vec!["apple"]);
}

#[test]
fn builder_refuses_key_out_of_order() {
    let mut build = DictionaryBuilder::new();
    build.insert_line("banana").unwrap();
    match build.insert_line("apple") {
        Err(DictionaryError::Fst(_)) => {}
        other => panic!("expected an fst error, got {:?}", other),
    }
    // The builder is unchanged and goes on.
    build.insert_line("cherry").unwrap();
    let dict = Dictionary::from_bytes(build.finish()).unwrap();
    assert!(dict.search("apple").execute().unwrap().is_empty());
    assert_eq!(keys_of(&dict.search("cherry").execute().unwrap()), vec!["cherry"]);
}

#[test]
fn invalid_utf8_key_gives_utf8_error() {
    let mut build = fst::SetBuilder::memory();
    build.insert(b"ab\xc0\x80").unwrap();
    let dict = Dictionary::from_bytes(build.into_inner().unwrap()).unwrap();
    match dict.search("ab").execute() {
        Err(DictionaryError::Utf8(e)) => assert_eq!(e.as_bytes(), b"ab\xc0\x80"),
        other => panic!("expected a UTF-8 error, got {:?}", other),
    }
    // Out of reach of the query, the key does no harm.
    assert!(dict.search("zzzzzz").execute().unwrap().is_empty());
}

#[test]
fn non_ascii_keys_are_matched_by_characters() {
    let dict = create_test_dict(&["café", "cafe", "naïve"]);
    let results = dict.search("café").execute().unwrap();
    assert_eq!(keys_of(&results), vec!["café", "cafe"]);
    assert_eq!(results[1].distance, 1);
    let results = dict.search("naive").execute().unwrap();
    assert_eq!(keys_of(&results), vec!["naïve"]);
}

#[test]
fn sort_lines_orders_by_bytes_and_keeps_duplicates() {
    let mut lines: Vec<String> = vec!["b", "a", "B", "ab", "a", ""].into_iter().map(String::from).collect();
    Dictionary::sort_lines(&mut lines);
    assert_eq!(lines, vec!["", "B", "a", "a", "ab", "b"]);
}

#[test]
fn batch_search_matches_single_searches() {
    let dict = create_test_dict(&["apple", "apply", "banana", "cherry"]);
    let queries = ["appl", "banan", "zzz", "cherry"];
    let batch = dict.batch_search(&queries);
    assert_eq!(batch.len(), queries.len());
    for (q, r) in queries.iter().zip(batch) {
        assert_eq!(r.unwrap(), dict.search(q).execute().unwrap());
    }
}

#[test]
fn best_matches_keep_the_smallest_in_order() {
    let mut best = BestMatches::new(2);
    best.offer(1, b"b".to_vec());
    best.offer(0, b"c".to_vec());
    best.offer(1, b"a".to_vec());
    best.offer(2, b"a".to_vec());
    best.offer(0, b"c".to_vec());
    let results = best.into_results().unwrap();
    assert_eq!(
        results,
        vec![
            SearchResult { is_exact: true, key: "c".to_string(), distance: 0 },
            SearchResult { is_exact: false, key: "a".to_string(), distance: 1 },
        ]
    );
}

#[test]
fn best_matches_with_room_keep_all_sorted() {
    let mut best = BestMatches::new(10);
    for (d, k) in [(2u8, "zz"), (1, "b"), (1, "ab"), (0, "q"), (1, "a")] {
        best.offer(d, k.as_bytes().to_vec());
    }
    let results = best.into_results().unwrap();
    assert_eq!(keys_of(&results), vec!["q", "a", "ab", "b", "zz"]);
}

#[test]
fn best_matches_with_limit_zero_keep_nothing() {
    let mut best = BestMatches::new(0);
    best.offer(0, b"a".to_vec());
    assert!(best.into_results().unwrap().is_empty());
}

#[test]
fn best_matches_report_invalid_utf8() {
    let mut best = BestMatches::new(3);
    best.offer(0, b"ok".to_vec());
    best.offer(1, vec![0xff]);
    match best.into_results() {
        Err(DictionaryError::Utf8(e)) => assert_eq!(e.as_bytes(), &[0xff]),
        other => panic!("expected a UTF-8 error, got {:?}", other),
    }
}

#[test]
fn sort_lines_orders_by_trimmed_key_so_building_accepts_them() {
    let mut lines: Vec<String> = vec![" b", "a", "\tc\n", "  ", "ab "].into_iter().map(String::from).collect();
    Dictionary::sort_lines(&mut lines);
    assert_eq!(lines, vec!["  ", "a", "ab ", " b", "\tc\n"]);
    let mut build = DictionaryBuilder::new();
    for line in &lines {
        build.insert_line(line).unwrap();
    }
    let dict = build.into_dictionary().unwrap();
    assert_eq!(keys_of(&dict.search("b").limit(10).execute().unwrap()), vec!["b", "a", "ab", "c"]);
}

#[test]
fn sort_lines_orders_equal_keys_by_line_bytes_and_is_idempotent() {
    let mut lines: Vec<String> = vec!["b", "a ", " a", "c", "a"].into_iter().map(String::from).collect();
    Dictionary::sort_lines(&mut lines);
    assert_eq!(lines, vec![" a", "a", "a ", "b", "c"]);
    let once = lines.clone();
    Dictionary::sort_lines(&mut lines);
    assert_eq!(lines, once);
}

#[test]
fn sort_lines_puts_a_line_before_the_same_line_with_trailing_space() {
    let mut lines: Vec<String> = vec!["a ".to_string(), "a".to_string()];
    Dictionary::sort_lines(&mut lines);
    assert_eq!(lines, vec!["a".to_string(), "a ".to_string()]);
}

#[test]
fn sort_lines_agrees_with_byte_order_where_keys_are_the_lines() {
    let words = ["pear", "apple", "fig", "apple", "Zebra", "éclair", "apples", "", "fig"];
    let mut lines: Vec<String> = words.iter().map(|w| w.to_string()).collect();
    let mut expected = lines.clone();
    expected.sort_unstable();
    Dictionary::sort_lines(&mut lines);
    assert_eq!(lines, expected);
}

#[test]
fn unsorted_lines_are_refused_at_the_first_inversion() {
    let mut build = DictionaryBuilder::new();
    build.insert_line(" b").unwrap();
    assert!(matches!(build.insert_line("a"), Err(DictionaryError::Fst(_))));
    build.insert_line("b").unwrap();
    build.insert_line("c").unwrap();
    let dict = build.into_dictionary().unwrap();
    assert_eq!(keys_of(&dict.search("b").limit(10).execute().unwrap()), vec!["b", "c"]);
}

#[test]
fn finished_bytes_depend_only_on_the_keys() {
    let mut one = DictionaryBuilder::new();
    for line in ["apple", "apple ", "", "banana"] {
        one.insert_line(line).unwrap();
    }
    let mut two = DictionaryBuilder::new();
    for line in [" apple", "banana\n"] {
        two.insert_line(line).unwrap();
    }
    assert_eq!(one.finish(), two.finish());
}

/// The Levenshtein distance between two strings, by characters.
fn levenshtein(a: &str, b: &str) -> usize {
    let a: Vec<char> = a.chars().collect();
    let b: Vec<char> = b.chars().collect();
    let mut row: Vec<usize> = (0..=b.len()).collect();
    for i in 1..=a.len() {
        let mut prev = row[0];
        row[0] = i;
        for j in 1..=b.len() {
            let cur = row[j];
            let sub = prev + if a[i - 1] == b[j - 1] { 0 } else { 1 };
            row[j] = sub.min(row[j] + 1).min(row[j - 1] + 1);
            prev = cur;
        }
    }
    row[b.len()]
}

#[test]
fn distances_are_levenshtein_distances_and_every_near_key_is_found() {
    let words = ["cat", "bat", "cart", "at", "cats", "dog", "c", "scat", "act", "über", "uber", "cät"];
    let dict = create_test_dict(&words);
    for query in ["cat", "ca", "uber", "dgo", "cät", "x", ""] {
        for max in 0..=2u8 {
            let results = dict.search(query).distance(max).limit(100).execute().unwrap();
            for r in &results {
                assert_eq!(r.distance as usize, levenshtein(query, &r.key));
                assert_eq!(r.is_exact, r.key == query);
            }
            let mut near: Vec<&str> =
                words.iter().copied().filter(|w| levenshtein(query, w) <= max as usize).collect();
            near.sort_by_key(|w| (levenshtein(query, w), w.as_bytes().to_vec()));
            near.dedup();
            assert_eq!(keys_of(&results), near);
        }
    }
}

#[test]
fn trim_removes_unicode_white_space_at_both_ends() {
    assert_eq!(trim("\u{3000} ab c\u{85}\t\r\n"), "ab c");
    assert_eq!(trim("\u{2003}x\u{a0}"), "x");
    assert_eq!(trim("   "), "");
    assert_eq!(trim(""), "");
    assert_eq!(trim("a b"), "a b");
    for s in [" \u{1680}q ", "\u{200b}z", "\u{feff}y ", "\u{2029}w\u{202f}"] {
        assert_eq!(trim(s), s.trim());
    }
}

#[test]
fn from_map_opens_a_memory_map() {
    let mut build = DictionaryBuilder::new();
    for line in ["apple", "banana", "cherry"] {
        build.insert_line(line).unwrap();
    }
    let bytes = build.finish();
    let mut writable = memmap2::MmapMut::map_anon(bytes.len()).unwrap();
    writable.copy_from_slice(&bytes);
    let map = writable.make_read_only().unwrap();
    let dict = Dictionary::from_map(map).unwrap();
    assert_eq!(keys_of(&dict.search("banan").execute().unwrap()), vec!["banana"]);
    assert_eq!(keys_of(&dict.search("cherry").limit(10).execute().unwrap()), vec!["cherry"]);
}

#[test]
fn sorting_any_arrangement_of_the_same_lines_gives_one_result() {
    let lines = [" b", "a ", "b", "a", "\ta", "c", "b "];
    let mut first: Vec<String> = lines.iter().map(|l| l.to_string()).collect();
    let mut second: Vec<String> = lines.iter().rev().map(|l| l.to_string()).collect();
    let mut third: Vec<String> = lines.iter().map(|l| l.to_string()).collect();
    third.rotate_left(3);
    Dictionary::sort_lines(&mut first);
    Dictionary::sort_lines(&mut second);
    Dictionary::sort_lines(&mut third);
    assert_eq!(first, vec!["\ta", "a", "a ", " b", "b", "b ", "c"]);
    assert_eq!(second, first);
    assert_eq!(third, first);
}
