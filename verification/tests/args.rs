use command_args::number::IntError;
use command_args::{Args, Error};

fn space() -> Vec<String> {
    vec![" ".to_string()]
}

#[test]
fn hello_world() {
    let mut args = Args::new("hello world!", &space());
    assert_eq!(args.single::<String>().unwrap(), "hello");
    assert_eq!(args.single::<String>().unwrap(), "world!");
}

#[test]
fn princess_zelda() {
    let mut args = Args::new(r#""Princess Zelda""#, &space());
    assert_eq!(args.single_quoted::<String>().unwrap(), "Princess Zelda");
}

#[test]
fn rewind_and_restore_walkthrough() {
    let mut args = Args::new("4 20", &space());
    assert_eq!(args.single::<u32>().unwrap(), 4);
    args.rewind();
    assert_eq!(args.single::<u32>().unwrap() * 2, 8);
    assert_eq!(args.single::<u32>().unwrap() * 2, 40);
    args.restore();
    let res = format!(
        "{}{}",
        args.single::<String>().unwrap(),
        args.single::<String>().unwrap()
    );
    assert_eq!(res, "420");
}

#[test]
fn single_n_never_moves() {
    let mut args = Args::new("four five six three", &space());
    assert_eq!(args.single_n::<String>().unwrap(), "four");
    assert_eq!(args.single_n::<String>().unwrap(), "four");
    assert_eq!(args.single_n::<String>().unwrap(), "four");
    assert_eq!(args.single_n::<String>().unwrap(), "four");
    assert_eq!(args.single_n::<String>().unwrap(), "four");
    assert_eq!(args.single::<String>().unwrap(), "four");
    assert_eq!(args.single_n::<String>().unwrap(), "five");
}

#[test]
fn new_splits_at_spaces() {
    let mut args = Args::new("the quick brown fox jumps over the lazy", &space());
    assert_eq!(args.len(), 8);
    assert_eq!(args.single::<String>().unwrap(), "the");
    assert_eq!(args.single::<String>().unwrap(), "quick");
    assert_eq!(args.single::<String>().unwrap(), "brown");
    assert_eq!(args.rest(), "fox jumps over the lazy");
}

#[test]
fn single_reads_in_order() {
    let mut args = Args::new("42 69", &space());
    assert_eq!(args.single::<u32>().unwrap(), 42);
    assert_eq!(args.single::<u32>().unwrap(), 69);
    assert!(matches!(args.single::<u32>(), Err(Error::Eos)));
}

#[test]
fn single_keeps_the_quotes() {
    let mut args = Args::new("\"42\"", &space());
    assert!(matches!(
        args.single_n::<u32>(),
        Err(Error::Parse(IntError::InvalidDigit))
    ));
    assert_eq!(args.single::<String>().unwrap(), "\"42\"");
}

#[test]
fn single_stays_on_a_failure() {
    let mut args = Args::new("x 7", &space());
    assert!(matches!(
        args.single::<u32>(),
        Err(Error::Parse(IntError::InvalidDigit))
    ));
    assert_eq!(args.remaining(), 2);
    assert_eq!(args.rest(), "x 7");
    assert_eq!(args.single::<String>().unwrap(), "x");
    assert_eq!(args.single::<u32>().unwrap(), 7);
}

#[test]
fn single_on_nothing_is_end_of_string() {
    let mut args = Args::new("", &space());
    assert!(matches!(args.single::<String>(), Err(Error::Eos)));
    assert!(matches!(args.single_n::<String>(), Err(Error::Eos)));
    assert!(matches!(args.single_quoted::<String>(), Err(Error::Eos)));
    assert!(matches!(args.single_quoted_n::<String>(), Err(Error::Eos)));
}

#[test]
fn single_n_stays() {
    let args = Args::new("42 69", &space());
    assert_eq!(args.single_n::<u32>().unwrap(), 42);
    assert_eq!(args.rest(), "42 69");
}

#[test]
fn skip_steps_over_one() {
    let mut args = Args::new("42 69", &space());
    assert_eq!(args.skip(), Some("42".to_string()));
    assert_eq!(args.single::<u32>().unwrap(), 69);
    assert_eq!(args.skip(), None);
    assert!(args.is_empty());
}

#[test]
fn skip_for_steps_over_many() {
    let mut args = Args::new("42 69 88 99", &space());
    assert_eq!(
        args.skip_for(3),
        Some(vec!["42".to_string(), "69".to_string(), "88".to_string()])
    );
    assert_eq!(args.remaining(), 1);
    assert_eq!(args.single::<u32>().unwrap(), 99);
}

#[test]
fn skip_for_more_than_is_left_fails_and_keeps_what_it_did() {
    let mut args = Args::new("42 69 88 99", &space());
    args.skip();
    assert_eq!(args.remaining(), 3);
    assert_eq!(args.skip_for(5), None);
    assert_eq!(args.remaining(), 0);
    assert!(args.is_empty());
    assert_eq!(args.len(), 4);
    args.rewind();
    assert_eq!(args.single::<u32>().unwrap(), 99);
}

#[test]
fn skip_for_exactly_what_is_left() {
    let mut args = Args::new("a b", &space());
    assert_eq!(args.skip_for(2), Some(vec!["a".to_string(), "b".to_string()]));
    assert!(args.is_empty());
    assert_eq!(args.skip_for(1), None);
}

#[test]
fn skip_for_none_steps_over_nothing() {
    let mut args = Args::new("a b", &space());
    assert_eq!(args.skip_for(0), Some(vec![]));
    assert_eq!(args.remaining(), 2);
    let mut empty = Args::new("", &space());
    assert_eq!(empty.skip_for(0), Some(vec![]));
}

#[test]
fn iter_reads_to_the_end() {
    let mut args = Args::new("3 4", &space());
    let mut squares = Vec::new();
    {
        let mut iter = args.iter::<u32>();
        while let Some(num) = iter.next() {
            squares.push(num.unwrap().pow(2));
        }
    }
    assert_eq!(squares, [9, 16]);
    assert!(args.is_empty());
}

#[test]
fn iter_hands_out_each_failure() {
    let mut args = Args::new("3 x", &space());
    let mut iter = args.iter::<u32>();
    assert_eq!(iter.next().unwrap().unwrap(), 3);
    assert!(matches!(
        iter.next(),
        Some(Err(Error::Parse(IntError::InvalidDigit)))
    ));
    assert!(matches!(
        iter.next(),
        Some(Err(Error::Parse(IntError::InvalidDigit)))
    ));
}

#[test]
fn iter_on_nothing_ends_at_once() {
    let mut args = Args::new("", &space());
    assert!(args.iter::<u32>().next().is_none());
    assert!(args.iter_quoted::<u32>().next().is_none());
}

#[test]
fn multiple_reads_all() {
    let args = Args::new("42 69", &space());
    assert_eq!(args.multiple::<u32>().unwrap(), [42, 69]);
}

#[test]
fn multiple_reads_what_is_left() {
    let mut args = Args::new("a 42 69", &space());
    args.skip();
    assert_eq!(args.multiple::<u32>().unwrap(), [42, 69]);
}

#[test]
fn multiple_fails_at_the_first_failure() {
    let args = Args::new("1 99999999999 x 4", &space());
    assert!(matches!(
        args.multiple::<u32>(),
        Err(Error::Parse(IntError::PosOverflow))
    ));
    let args = Args::new("1 x 99999999999 4", &space());
    assert!(matches!(
        args.multiple::<u32>(),
        Err(Error::Parse(IntError::InvalidDigit))
    ));
}

#[test]
fn multiple_on_nothing_is_end_of_string() {
    let args = Args::new("", &space());
    assert!(matches!(args.multiple::<String>(), Err(Error::Eos)));
    let args = Args::new("", &space());
    assert!(matches!(args.multiple_quoted::<String>(), Err(Error::Eos)));
    let mut args = Args::new("1 2", &space());
    args.skip_for(2);
    assert!(matches!(args.clone().multiple::<u32>(), Err(Error::Eos)));
    assert!(matches!(args.multiple_quoted::<u32>(), Err(Error::Eos)));
}

#[test]
fn quoted_extraction() {
    let mut args = Args::new("\"42 69\"", &space());
    assert_eq!(args.single_quoted::<String>().unwrap(), "42 69");
    assert!(args.is_empty());
}

#[test]
fn single_quoted_reads_plain_arguments_too() {
    let mut args = Args::new("12 \"34\" \"5 6\"", &space());
    assert_eq!(args.single_quoted::<u32>().unwrap(), 12);
    assert_eq!(args.single_quoted::<u32>().unwrap(), 34);
    assert!(matches!(
        args.single_quoted::<u32>(),
        Err(Error::Parse(IntError::InvalidDigit))
    ));
    assert_eq!(args.remaining(), 1);
    assert_eq!(args.single_quoted::<String>().unwrap(), "5 6");
}

#[test]
fn single_quoted_n_stays() {
    let args = Args::new(r#""42 69""#, &space());
    assert_eq!(args.single_quoted_n::<String>().unwrap(), "42 69");
    assert_eq!(args.rest(), r#""42 69""#);
}

#[test]
fn empty_quotes_are_an_empty_argument() {
    let mut args = Args::new("\"\" x", &space());
    assert_eq!(args.len(), 2);
    assert_eq!(args.single_quoted_n::<String>().unwrap(), "");
    assert!(matches!(
        args.single_quoted_n::<u32>(),
        Err(Error::Parse(IntError::Empty))
    ));
    assert_eq!(args.single::<String>().unwrap(), "\"\"");
}

#[test]
fn iter_quoted_reads_to_the_end() {
    let mut args = Args::new(r#""2" "5""#, &space());
    let mut squares = Vec::new();
    {
        let mut iter = args.iter_quoted::<u32>();
        while let Some(n) = iter.next() {
            squares.push(n.unwrap().pow(2));
        }
    }
    assert_eq!(squares, [4, 25]);
    assert!(args.is_empty());
}

#[test]
fn multiple_quoted_reads_all() {
    let args = Args::new(r#""42" "69""#, &space());
    assert_eq!(args.multiple_quoted::<u32>().unwrap(), [42, 69]);
}

#[test]
fn multiple_keeps_the_quotes() {
    let args = Args::new(r#""42" "69""#, &space());
    assert!(matches!(
        args.multiple::<u32>(),
        Err(Error::Parse(IntError::InvalidDigit))
    ));
}

#[test]
fn destructive_search() {
    let mut args = Args::new("c42 69", &space());
    assert_eq!(args.find::<u32>().unwrap(), 69);
    assert_eq!(args.single::<String>().unwrap(), "c42");
    assert!(args.is_empty());
}

#[test]
fn find_takes_the_first_match_and_goes_back_to_the_start() {
    let mut args = Args::new("a b 1 c 2", &space());
    args.skip_for(4);
    assert_eq!(args.remaining(), 1);
    assert_eq!(args.find::<u32>().unwrap(), 1);
    assert_eq!(args.len(), 4);
    assert_eq!(args.remaining(), 4);
    assert_eq!(args.rest(), "a b 1 c 2");
    assert_eq!(
        args.clone().multiple::<String>().unwrap(),
        ["a", "b", "c", "2"]
    );
    assert_eq!(args.find::<u32>().unwrap(), 2);
    assert_eq!(args.clone().multiple::<String>().unwrap(), ["a", "b", "c"]);
}

#[test]
fn find_looks_before_the_cursor_too() {
    let mut args = Args::new("7 a", &space());
    args.skip_for(2);
    assert!(args.is_empty());
    assert_eq!(args.find::<u32>().unwrap(), 7);
    assert_eq!(args.remaining(), 1);
    assert_eq!(args.single::<String>().unwrap(), "a");
}

#[test]
fn find_without_a_match_changes_nothing() {
    let mut args = Args::new("a b c", &space());
    args.skip();
    assert!(matches!(args.find::<u32>(), Err(Error::Eos)));
    assert_eq!(args.len(), 3);
    assert_eq!(args.remaining(), 2);
    assert_eq!(args.rest(), "b c");
    let mut empty = Args::new("", &space());
    assert!(matches!(empty.find::<u32>(), Err(Error::Eos)));
    assert!(matches!(empty.find_n::<String>(), Err(Error::Eos)));
}

#[test]
fn find_reads_without_quotes() {
    let mut args = Args::new("x \"42\" 7", &space());
    assert_eq!(args.find::<u32>().unwrap(), 42);
    assert_eq!(args.clone().multiple::<String>().unwrap(), ["x", "7"]);
    assert_eq!(args.find::<String>().unwrap(), "x");
    assert_eq!(args.len(), 1);
}

#[test]
fn find_n_takes_nothing_out() {
    let mut args = Args::new("c42 69", &space());
    assert_eq!(args.find_n::<u32>().unwrap(), 69);
    assert_eq!(args.single::<String>().unwrap(), "c42");
    assert_eq!(args.single::<u32>().unwrap(), 69);
    assert!(args.is_empty());
}

#[test]
fn find_n_gives_the_same_again() {
    let mut args = Args::new("a 5 6", &space());
    args.skip();
    assert_eq!(args.find_n::<u32>().unwrap(), 5);
    assert_eq!(args.find_n::<u32>().unwrap(), 5);
    assert_eq!(args.find_n::<u32>().unwrap(), 5);
    assert_eq!(args.remaining(), 2);
    assert_eq!(args.len(), 3);
}

#[test]
fn full_is_the_whole_text() {
    let mut args = Args::new("42 69", &space());
    assert_eq!(args.full(), "42 69");
    args.skip();
    args.find::<u32>().unwrap();
    assert_eq!(args.full(), "42 69");
}

#[test]
fn full_quoted_without_the_quotes() {
    let args = Args::new("\"42 69\"", &space());
    assert_eq!(args.full_quoted(), "42 69");
}

#[test]
fn full_quoted_with_an_open_quote() {
    let args = Args::new("\"42 69", &space());
    assert_eq!(args.full_quoted(), "\"42 69");
}

#[test]
fn full_quoted_with_a_closing_quote_only() {
    let args = Args::new("42 69\"", &space());
    assert_eq!(args.full_quoted(), "42 69\"");
}

#[test]
fn full_quoted_edge_cases() {
    assert_eq!(Args::new("", &space()).full_quoted(), "");
    assert_eq!(Args::new("\"", &space()).full_quoted(), "\"");
    assert_eq!(Args::new("\"\"", &space()).full_quoted(), "");
    assert_eq!(Args::new("abc", &space()).full_quoted(), "abc");
    assert_eq!(Args::new("\"a\" b", &space()).full_quoted(), "a");
    assert_eq!(Args::new("\"a\"b\"c", &space()).full_quoted(), "a\"b");
    assert_eq!(Args::new("\"é\"ü", &space()).full_quoted(), "é");
}

#[test]
fn rest_follows_the_cursor() {
    let mut args = Args::new("42 69 91", &space());
    assert_eq!(args.rest(), "42 69 91");
    args.skip();
    assert_eq!(args.rest(), "69 91");
    args.skip();
    assert_eq!(args.rest(), "91");
    args.skip();
    assert_eq!(args.rest(), "");
}

#[test]
fn rest_after_construction_is_the_whole_text() {
    for text in ["", "a", "42 69 91", "\"a b\" c", "\"open", "é ü", "a  b "] {
        let args = Args::new(text, &space());
        assert_eq!(args.rest(), args.full());
    }
}

#[test]
fn rest_starts_at_the_first_argument() {
    let args = Args::new("  a b ", &space());
    assert_eq!(args.rest(), "a b ");
    assert_eq!(args.full(), "  a b ");
    let args = Args::new("   ", &space());
    assert_eq!(args.rest(), "");
    assert_eq!(args.len(), 0);
}

#[test]
fn rest_keeps_delimiters_and_quotes() {
    let mut args = Args::new("a  \"b  c\"   d ", &space());
    args.skip();
    assert_eq!(args.rest(), "\"b  c\"   d ");
    args.skip();
    assert_eq!(args.rest(), "d ");
}

#[test]
fn len_counts_the_arguments() {
    let args = Args::new("42 69", &space());
    assert_eq!(args.len(), 2);
    let args = Args::new(r#""42" "69""#, &space());
    assert_eq!(args.len(), 2);
}

#[test]
fn len_changes_only_by_find() {
    let mut args = Args::new("1 2 3", &space());
    args.skip();
    args.rewind();
    args.skip_for(2);
    args.restore();
    assert_eq!(args.len(), 3);
    args.find::<u32>().unwrap();
    assert_eq!(args.len(), 2);
}

#[test]
fn is_empty_on_an_empty_text() {
    let args = Args::new("", &space());
    assert!(args.is_empty());
    assert_eq!(args.len(), 0);
    assert_eq!(args.remaining(), 0);
}

#[test]
fn remaining_counts_down() {
    let mut args = Args::new("42 69", &space());
    assert_eq!(args.remaining(), 2);
    args.skip();
    assert_eq!(args.remaining(), 1);
    args.skip();
    assert_eq!(args.remaining(), 0);
}

#[test]
fn rewind_goes_one_step_back() {
    let mut args = Args::new("42 69", &space());
    assert_eq!(args.single::<u32>().unwrap(), 42);
    args.rewind();
    assert_eq!(args.single::<u32>().unwrap() * 2, 84);
}

#[test]
fn rewind_at_the_start_changes_nothing() {
    let mut args = Args::new("42 69", &space());
    args.rewind();
    assert_eq!(args.len(), 2);
    assert_eq!(args.remaining(), 2);
    assert_eq!(args.rest(), "42 69");
    assert_eq!(args.full(), "42 69");
    assert!(!args.is_empty());
    assert_eq!(args.single_n::<u32>().unwrap(), 42);
    let mut empty = Args::new("", &space());
    empty.rewind();
    assert!(empty.is_empty());
    assert_eq!(empty.rest(), "");
}

#[test]
fn restore_goes_back_to_the_start() {
    let mut args = Args::new("42 69 95", &space());
    assert_eq!(args.single::<u32>().unwrap(), 42);
    assert_eq!(args.single::<u32>().unwrap(), 69);
    assert_eq!(args.single::<u32>().unwrap(), 95);
    args.restore();
    assert_eq!(args.single::<u32>().unwrap() * 2, 84);
    assert_eq!(args.single::<u32>().unwrap() * 2, 138);
    assert_eq!(args.single::<u32>().unwrap() * 2, 190);
}

#[test]
fn unterminated_quote_is_a_plain_argument() {
    let mut args = Args::new("\"42 69", &space());
    assert_eq!(args.len(), 1);
    assert_eq!(args.single_quoted_n::<String>().unwrap(), "\"42 69");
    assert_eq!(args.single::<String>().unwrap(), "\"42 69");
    assert!(args.is_empty());
}

#[test]
fn lone_quote_is_a_plain_argument() {
    let mut args = Args::new("\"", &space());
    assert_eq!(args.len(), 1);
    assert_eq!(args.single_quoted::<String>().unwrap(), "\"");
    let mut args = Args::new("a \"", &space());
    assert_eq!(args.len(), 2);
    args.skip();
    assert_eq!(args.single_quoted::<String>().unwrap(), "\"");
}

#[test]
fn a_quote_within_a_word_is_part_of_it() {
    let args = Args::new("ab\"cd ef\"", &space());
    assert_eq!(
        args.multiple_quoted::<String>().unwrap(),
        ["ab\"cd", "ef\""]
    );
}

#[test]
fn a_quoted_argument_ends_at_its_quote() {
    let args = Args::new("\"a b\"c d", &space());
    assert_eq!(
        args.multiple_quoted::<String>().unwrap(),
        ["a b", "c", "d"]
    );
}

#[test]
fn adjacent_delimiters_make_no_argument() {
    let args = Args::new("a   b", &space());
    assert_eq!(args.len(), 2);
    assert_eq!(args.multiple::<String>().unwrap(), ["a", "b"]);
}

#[test]
fn delimiters_that_are_not_in_the_text_do_not_count() {
    let delims = vec![", ".to_string()];
    let args = Args::new("a,b c", &delims);
    assert_eq!(args.multiple::<String>().unwrap(), ["a,b c"]);
}

#[test]
fn each_character_of_a_delimiter_separates() {
    let delims = vec![", ".to_string()];
    let args = Args::new("a, b c,d", &delims);
    assert_eq!(args.multiple::<String>().unwrap(), ["a", "b", "c", "d"]);
}

#[test]
fn several_delimiters() {
    let delims = vec![";".to_string(), "|".to_string(), "-".to_string()];
    let args = Args::new("a;b|c d-e", &delims);
    assert_eq!(args.multiple::<String>().unwrap(), ["a", "b", "c d", "e"]);
    let delims = vec![";".to_string(), "x|".to_string()];
    let args = Args::new("a;b|c", &delims);
    assert_eq!(args.multiple::<String>().unwrap(), ["a", "b|c"]);
}

#[test]
fn no_delimiters_one_argument() {
    let args = Args::new("a b c", &[]);
    assert_eq!(args.len(), 1);
    assert_eq!(args.multiple::<String>().unwrap(), ["a b c"]);
    let delims = vec!["".to_string()];
    let args = Args::new("a b c", &delims);
    assert_eq!(args.len(), 1);
}

#[test]
fn a_quote_as_delimiter_is_a_delimiter() {
    let delims = vec!["\"".to_string()];
    let args = Args::new("a\"b c\"d", &delims);
    assert_eq!(args.multiple_quoted::<String>().unwrap(), ["a", "b c", "d"]);
}

#[test]
fn multi_byte_characters_next_to_delimiters() {
    let mut args = Args::new("héllo wörld ñ", &space());
    assert_eq!(args.len(), 3);
    assert_eq!(args.single::<String>().unwrap(), "héllo");
    assert_eq!(args.rest(), "wörld ñ");
    assert_eq!(args.single::<String>().unwrap(), "wörld");
    assert_eq!(args.rest(), "ñ");
    assert_eq!(args.single::<String>().unwrap(), "ñ");
    assert_eq!(args.rest(), "");
}

#[test]
fn multi_byte_delimiters() {
    let delims = vec!["\u{3000}".to_string(), "→".to_string()];
    let mut args = Args::new("日本語\u{3000}テキスト→😀\u{3000}\"引用\u{3000}符\"", &delims);
    assert_eq!(args.len(), 4);
    assert_eq!(args.single::<String>().unwrap(), "日本語");
    assert_eq!(args.rest(), "テキスト→😀\u{3000}\"引用\u{3000}符\"");
    assert_eq!(args.single::<String>().unwrap(), "テキスト");
    assert_eq!(args.single::<String>().unwrap(), "😀");
    assert_eq!(args.rest(), "\"引用\u{3000}符\"");
    assert_eq!(args.single_quoted::<String>().unwrap(), "引用\u{3000}符");
    assert!(args.is_empty());
}

#[test]
fn a_delimiter_that_shares_bytes_with_a_character_does_not_cut_it() {
    // 'é' is C3 A9 and 'é' + 1 = 'ê' is C3 AA: they share their first byte.
    let delims = vec!["ê".to_string()];
    let args = Args::new("aébêc", &delims);
    assert_eq!(args.multiple::<String>().unwrap(), ["aéb", "c"]);
}

#[test]
fn clone_is_independent() {
    let mut args = Args::new("1 2 3", &space());
    let copy = args.clone();
    args.find::<u32>().unwrap();
    args.skip();
    assert_eq!(copy.len(), 3);
    assert_eq!(copy.remaining(), 3);
    assert_eq!(args.len(), 2);
    assert_eq!(args.remaining(), 1);
}

#[test]
fn arguments_of_several_types() {
    let mut args = Args::new("-5 true x \"y\" 300", &space());
    assert_eq!(args.single::<i32>().unwrap(), -5);
    assert_eq!(args.single::<bool>().unwrap(), true);
    assert_eq!(args.single::<char>().unwrap(), 'x');
    assert_eq!(args.single_quoted::<char>().unwrap(), 'y');
    assert!(matches!(
        args.single_n::<u8>(),
        Err(Error::Parse(IntError::PosOverflow))
    ));
    assert_eq!(args.find::<u16>().unwrap(), 300);
    assert_eq!(args.find::<i64>().unwrap(), -5);
    assert_eq!(args.find::<bool>().unwrap(), true);
    assert_eq!(args.len(), 2);
}

#[test]
fn no_argument_is_a_delimiter() {
    let delims = vec![" ".to_string(), ",".to_string(), "→".to_string()];
    let texts = [
        "a b",
        " , →",
        ",a,,b→→c ",
        "\" \" , \",\"",
        "\"→",
        "→\"a b\"→",
    ];
    for text in texts {
        let mut args = Args::new(text, &delims);
        let count = args.len();
        let mut seen = 0;
        while let Some(lit) = args.skip() {
            assert!(lit != " " && lit != "," && lit != "→" && !lit.is_empty());
            seen += 1;
        }
        assert_eq!(seen, count);
    }
    assert_eq!(Args::new(" , →", &delims).len(), 0);
    assert_eq!(Args::new("\" \" , \",\"", &delims).len(), 2);
}

#[test]
fn the_rest_starts_with_the_argument_under_the_cursor() {
    let delims = vec![" ".to_string(), "\u{3000}".to_string()];
    let texts = [
        "plain words here",
        "é😀 \"ñ ü\" x",
        "日本語\u{3000}テキスト \"引用\u{3000}符",
        "  \"\" \" a\u{7ff}\u{800}\u{ffff}\u{10000} ",
    ];
    for text in texts {
        let mut args = Args::new(text, &delims);
        while !args.is_empty() {
            let lit = args.single_n::<String>().unwrap();
            assert!(args.rest().starts_with(&lit));
            assert!(text.ends_with(args.rest()));
            args.skip();
        }
        assert_eq!(args.rest(), "");
    }
}
