use minigrep::line::lines;
use minigrep::pattern::contains;
use minigrep::{search, search_case_insensitive};

fn get_test_data() -> &'static str {
    "\
        Rust:\nsafe, fast, productive. Pick three.\nDuct tape.\nTrust me."
}

#[test]
fn case_sensitive() {
    let query = "duct";
    assert_eq!(
        vec!["safe, fast, productive. Pick three."],
        search(query, get_test_data())
    );
}

#[test]
fn case_insensitive() {
    let query = "rUsT";
    assert_eq!(
        vec!["Rust:", "Trust me."],
        search_case_insensitive(query, get_test_data())
    );
}

#[test]
fn test_data_starts_at_its_first_word() {
    assert_eq!(
        get_test_data(),
        "Rust:\nsafe, fast, productive. Pick three.\nDuct tape.\nTrust me."
    );
}

#[test]
fn every_result_holds_the_query_and_no_holder_is_left_out() {
    let corpus = "one fish\ntwo fish\nred herring\nblue fish\n\nfishfish";
    let found = search("fish", corpus);
    assert_eq!(found, vec!["one fish", "two fish", "blue fish", "fishfish"]);
    for line in &found {
        assert!(line.contains("fish"));
    }
    let expected: Vec<&str> = corpus.lines().filter(|line| line.contains("fish")).collect();
    assert_eq!(found, expected);
}

#[test]
fn equal_lines_are_all_returned_in_place() {
    let corpus = "ab\nxx\nab\nab\nyy";
    assert_eq!(search("ab", corpus), vec!["ab", "ab", "ab"]);
    assert_eq!(search("yy", corpus), vec!["yy"]);
}

#[test]
fn results_are_slices_of_the_contents() {
    let corpus = String::from("alpha\nbeta\ngamma");
    let found = search("a", &corpus);
    assert_eq!(found.len(), 3);
    let start = corpus.as_ptr() as usize;
    assert_eq!(found[0].as_ptr() as usize, start);
    assert_eq!(found[1].as_ptr() as usize, start + 6);
    assert_eq!(found[2].as_ptr() as usize, start + 11);
}

#[test]
fn ignoring_case_finds_at_least_what_the_plain_search_finds() {
    let corpus = "Rust:\nsafe, fast, productive. Pick three.\nDuct tape.\nTrust me.\nRUST";
    for query in ["rust", "Rust", "RUST", "duct", "Duct", "e.", "T", ""] {
        let plain = search(query, corpus);
        let folded = search_case_insensitive(query, corpus);
        assert!(plain.len() <= folded.len());
        let mut rest = folded.iter();
        for line in &plain {
            assert!(rest.any(|other| other == line));
        }
    }
    assert_eq!(search("rust", corpus), vec!["Trust me."]);
    assert_eq!(
        search_case_insensitive("rust", corpus),
        vec!["Rust:", "Trust me.", "RUST"]
    );
}

#[test]
fn both_searches_agree_on_lowercase_text() {
    let corpus = "the quick\nbrown fox\njumps over\nthe lazy dog";
    for query in ["the", "o", "fox", "cat", ""] {
        assert_eq!(search(query, corpus), search_case_insensitive(query, corpus));
    }
    assert_eq!(search("the", corpus), vec!["the quick", "the lazy dog"]);
}

#[test]
fn a_final_sigma_is_lowercased_by_its_place_in_the_word() {
    assert_eq!(search("Σ", "ΑΣ"), vec!["ΑΣ"]);
    assert_eq!(search_case_insensitive("Σ", "ΑΣ"), Vec::<&str>::new());
    assert_eq!(search_case_insensitive("ς", "ΑΣ"), vec!["ΑΣ"]);
    assert_eq!(search_case_insensitive("Σ", "ΣΑ"), vec!["ΣΑ"]);
}

#[test]
fn ignoring_case_reaches_beyond_ascii() {
    let corpus = "Äpfel und Birnen\nApfel\nÖL\nГРОЗА";
    assert_eq!(search_case_insensitive("äPFEL", corpus), vec!["Äpfel und Birnen"]);
    assert_eq!(search_case_insensitive("öl", corpus), vec!["ÖL"]);
    assert_eq!(search_case_insensitive("гроза", corpus), vec!["ГРОЗА"]);
    assert_eq!(search("öl", corpus), Vec::<&str>::new());
}

#[test]
fn the_line_is_returned_as_it_stands() {
    assert_eq!(
        search_case_insensitive("hello", "Say HeLLo\nbye"),
        vec!["Say HeLLo"]
    );
}

#[test]
fn searching_twice_gives_the_same() {
    let corpus = get_test_data();
    assert_eq!(search("st", corpus), search("st", corpus));
    assert_eq!(
        search_case_insensitive("ST", corpus),
        search_case_insensitive("ST", corpus)
    );
    assert_eq!(
        search("st", corpus),
        vec!["Rust:", "safe, fast, productive. Pick three.", "Trust me."]
    );
}

#[test]
fn the_empty_query_returns_every_line() {
    let corpus = get_test_data();
    assert_eq!(
        search("", corpus),
        vec!["Rust:", "safe, fast, productive. Pick three.", "Duct tape.", "Trust me."]
    );
    assert_eq!(search("", "a\n\nb\n"), vec!["a", "", "b"]);
    assert_eq!(search_case_insensitive("", "a\n\nB\n"), vec!["a", "", "B"]);
}

#[test]
fn a_query_that_is_not_there_returns_nothing() {
    assert_eq!(search("zzz_not_present", get_test_data()), Vec::<&str>::new());
    assert_eq!(
        search_case_insensitive("zzz_not_present", get_test_data()),
        Vec::<&str>::new()
    );
}

#[test]
fn the_empty_text_has_no_lines() {
    assert_eq!(search("", ""), Vec::<&str>::new());
    assert_eq!(search("a", ""), Vec::<&str>::new());
    assert_eq!(search_case_insensitive("", ""), Vec::<&str>::new());
    assert_eq!(lines(""), Vec::<&str>::new());
}

#[test]
fn a_query_does_not_reach_across_lines() {
    assert_eq!(search("ab", "a\nb"), Vec::<&str>::new());
    assert_eq!(search("a\nb", "a\nb"), Vec::<&str>::new());
    assert_eq!(search("\n", "a\nb"), Vec::<&str>::new());
}

#[test]
fn lines_end_at_line_feeds() {
    assert_eq!(lines("a"), vec!["a"]);
    assert_eq!(lines("a\n"), vec!["a"]);
    assert_eq!(lines("a\nb"), vec!["a", "b"]);
    assert_eq!(lines("a\n\nb"), vec!["a", "", "b"]);
    assert_eq!(lines("\n"), vec![""]);
    assert_eq!(lines("\n\n"), vec!["", ""]);
    assert_eq!(lines("\na"), vec!["", "a"]);
}

#[test]
fn a_carriage_return_before_a_line_feed_is_dropped() {
    assert_eq!(lines("a\r\nb\r\n"), vec!["a", "b"]);
    assert_eq!(lines("a\r\n"), vec!["a"]);
    assert_eq!(lines("\r\n"), vec![""]);
    assert_eq!(lines("a\r\r\nb"), vec!["a\r", "b"]);
    assert_eq!(search("a", "a\r\nb\r\n"), vec!["a"]);
}

#[test]
fn other_carriage_returns_stay() {
    assert_eq!(lines("a\rb"), vec!["a\rb"]);
    assert_eq!(lines("a\r"), vec!["a\r"]);
    assert_eq!(lines("a\nb\r"), vec!["a", "b\r"]);
    assert_eq!(lines("\r"), vec!["\r"]);
    assert_eq!(lines("\ra\n"), vec!["\ra"]);
}

#[test]
fn lines_agree_with_the_standard_library() {
    let texts = [
        "",
        "\n",
        "\r",
        "\r\n",
        "\n\r",
        "a",
        "a\n",
        "a\r\n",
        "a\r",
        "a\n\r",
        "a\r\rb\r\n\r\nc\r",
        "één\ntwee\r\ndrie",
        "日本語\n\n中文\r\n한국어\n",
        "tab\there\n space \n",
        "\u{85}next\u{2028}line\u{2029}\n\u{b}\u{c}",
        "😀\n😀\r\n😀",
    ];
    for text in texts {
        let expected: Vec<&str> = text.lines().collect();
        assert_eq!(lines(text), expected);
        assert_eq!(search("", text), expected);
    }
}

#[test]
fn contains_finds_literal_runs() {
    assert!(contains("hello world", "o w"));
    assert!(contains("hello world", "hello world"));
    assert!(contains("hello world", "hello"));
    assert!(contains("hello world", "world"));
    assert!(contains("hello world", ""));
    assert!(contains("", ""));
    assert!(!contains("", "a"));
    assert!(!contains("hello world", "hello world!"));
    assert!(!contains("hello world", "wor1d"));
    assert!(!contains("hello", "Hello"));
    assert!(contains("aaab", "aab"));
    assert!(contains("a.c", "."));
    assert!(!contains("abc", "a.c"));
    assert!(!contains("abc", ".*"));
}

#[test]
fn contains_agrees_with_the_standard_library() {
    let texts = [
        "", "a", "ab", "aab", "abab", "é", "eé", "日本語", "本", "語日", "😀x", "x😀", "ß",
    ];
    for haystack in texts {
        for needle in texts {
            assert_eq!(contains(haystack, needle), haystack.contains(needle));
        }
    }
}
