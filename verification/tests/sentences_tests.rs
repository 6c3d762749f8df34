use hash_collections::sentences::{
    add_sentence, segment_line, split_trimmed, BookGraph, Delimiters, Sentence, SentenceBuffer,
};

fn strings(parts: &[&str]) -> Vec<String> {
    parts.iter().map(|part| part.to_string()).collect()
}

fn shown(sentences: Vec<Sentence>) -> Vec<(bool, String)> {
    sentences
        .into_iter()
        .map(|sentence| match sentence {
            Sentence::Complete(text) => (true, text),
            Sentence::Incomplete(text) => (false, text),
        })
        .collect()
}

#[test]
fn a_text_is_cut_at_the_ends_of_its_sentences() {
    assert_eq!(
        split_trimmed("Hello world. How are you? Fine! So; it: goes", Delimiters::SentenceEnds),
        strings(&["Hello world", "How are you", "Fine", "So", "it", "goes"])
    );
    assert_eq!(split_trimmed("One", Delimiters::SentenceEnds), strings(&["One"]));
    assert_eq!(split_trimmed("One.", Delimiters::SentenceEnds), strings(&["One"]));
    assert_eq!(split_trimmed(".One", Delimiters::SentenceEnds), strings(&["One"]));
}

#[test]
fn parts_lose_the_white_space_around_them() {
    assert_eq!(
        split_trimmed("  a b \t.\n c\u{a0}. \r\n", Delimiters::SentenceEnds),
        strings(&["a b", "c"])
    );
    assert_eq!(split_trimmed(" x ", Delimiters::SentenceEnds), strings(&["x"]));
}

#[test]
fn parts_with_nothing_in_them_are_left_out() {
    assert_eq!(split_trimmed("", Delimiters::SentenceEnds), strings(&[]));
    assert_eq!(split_trimmed("   ", Delimiters::SentenceEnds), strings(&[]));
    assert_eq!(split_trimmed("..  .?!", Delimiters::SentenceEnds), strings(&[]));
    assert_eq!(split_trimmed("a..b", Delimiters::SentenceEnds), strings(&["a", "b"]));
}

#[test]
fn a_sentence_is_cut_into_its_words() {
    assert_eq!(
        split_trimmed("the cat, the \"dog\"  and.me", Delimiters::WordBreaks),
        strings(&["the", "cat", "the", "dog", "and.me"])
    );
    assert_eq!(split_trimmed("über , naïve", Delimiters::WordBreaks), strings(&["über", "naïve"]));
    assert_eq!(Delimiters::WordBreaks.is_delimiter(','), true);
    assert_eq!(Delimiters::WordBreaks.is_delimiter('.'), false);
    assert_eq!(Delimiters::SentenceEnds.is_delimiter(':'), true);
    assert_eq!(Delimiters::SentenceEnds.is_delimiter(','), false);
}

#[test]
fn a_line_gives_its_sentences_and_what_it_leaves_open() {
    assert_eq!(
        shown(segment_line(String::from("One. Two"))),
        vec![(true, String::from("One")), (false, String::from("Two"))]
    );
    assert_eq!(
        shown(segment_line(String::from(" One. Two. \n"))),
        vec![(true, String::from("One")), (true, String::from("Two")), (false, String::new())]
    );
    assert_eq!(shown(segment_line(String::from("Two"))), vec![(false, String::from("Two"))]);
    assert_eq!(shown(segment_line(String::from("  \n"))), vec![(false, String::from("  \n"))]);
    assert_eq!(shown(segment_line(String::from("..."))), vec![(false, String::from("..."))]);
    assert_eq!(
        shown(segment_line(String::from("One. "))),
        vec![(true, String::from("One")), (false, String::new())]
    );
}

#[test]
fn take_gives_the_text_of_a_sentence() {
    assert_eq!(Sentence::Complete(String::from("a")).take(), "a");
    assert_eq!(Sentence::Incomplete(String::from("b")).take(), "b");
}

#[test]
fn an_open_sentence_goes_on_with_the_next_line() {
    let mut buffer = SentenceBuffer::new();
    assert_eq!(buffer.done(), false);
    assert_eq!(buffer.wants_line(), true);

    let mut line = buffer.begin_read();
    assert_eq!(line, " ");
    line.push_str("It was a dark\n");
    buffer.end_read(line, true);
    assert_eq!(buffer.wants_line(), true);

    let mut line = buffer.begin_read();
    assert_eq!(line, "It was a dark ");
    line.push_str("night. The wind. It\n");
    buffer.end_read(line, true);
    assert_eq!(buffer.wants_line(), false);
    assert_eq!(buffer.next_sentence(), Some(String::from("It was a dark night")));
    assert_eq!(buffer.next_sentence(), Some(String::from("The wind")));
    assert_eq!(buffer.wants_line(), true);

    let line = buffer.begin_read();
    assert_eq!(line, "It ");
    buffer.end_read(line, false);
    assert_eq!(buffer.done(), true);
    assert_eq!(buffer.wants_line(), false);
    assert_eq!(buffer.next_sentence(), Some(String::from("It ")));
    assert_eq!(buffer.next_sentence(), None);
    assert_eq!(buffer.begin_read(), "");
}

#[test]
fn words_are_connected_to_the_next_word_and_to_their_sentence() {
    let mut graph = BookGraph::<97>::new();
    let sentence = String::from("the cat, the dog");
    assert!(add_sentence(&mut graph, sentence.clone()).is_ok());
    let word = |text: &str| text.to_string();

    assert_eq!(graph.size(), 4);
    assert_eq!(graph.node(&sentence).map(|node| *node.value()), Some(true));
    assert_eq!(graph.node(&word("the")).map(|node| *node.value()), Some(false));
    assert_eq!(graph.out_edge_weight(&word("the"), &word("cat")), 1);
    assert_eq!(graph.out_edge_weight(&word("cat"), &word("the")), 1);
    assert_eq!(graph.out_edge_weight(&word("the"), &word("dog")), 1);
    assert_eq!(graph.out_edge_weight(&word("dog"), &word("the")), 0);
    assert_eq!(graph.out_edge_weight(&word("the"), &sentence), 2);
    assert_eq!(graph.out_edge_weight(&word("cat"), &sentence), 1);
    assert_eq!(graph.out_edge_weight(&word("dog"), &sentence), 1);
    assert_eq!(graph.out_edge_weight(&sentence, &word("the")), 0);

    assert!(add_sentence(&mut graph, String::from("the cat")).is_ok());
    assert_eq!(graph.out_edge_weight(&word("the"), &word("cat")), 2);
    assert_eq!(graph.out_edge_weight(&word("the"), &String::from("the cat")), 1);
    assert_eq!(graph.size(), 5);
}

#[test]
fn a_sentence_fails_where_the_graph_has_no_room_for_its_words() {
    let mut graph = BookGraph::<3>::new();
    let failed = add_sentence(&mut graph, String::from("a b c d"));
    assert_eq!(failed.map_err(|error| error.capacity), Err(3));
    assert_eq!(graph.size(), 3);
    assert_eq!(graph.out_edge_weight(&String::from("a"), &String::from("b")), 1);
    assert_eq!(graph.out_edge_weight(&String::from("a"), &String::from("a b c d")), 1);
    assert!(graph.node(&String::from("c")).is_none());
}

fn white_space_by_code(code: u32) -> bool {
    (0x0009..=0x000D).contains(&code)
        || code == 0x0020
        || code == 0x0085
        || code == 0x00A0
        || code == 0x1680
        || (0x2000..=0x200A).contains(&code)
        || code == 0x2028
        || code == 0x2029
        || code == 0x202F
        || code == 0x205F
        || code == 0x3000
}

#[test]
fn white_space_is_a_set_of_twenty_five_characters() {
    let mut count = 0;
    for code in 0..=0x10FFFFu32 {
        if let Some(c) = char::from_u32(code) {
            assert_eq!(c.is_whitespace(), white_space_by_code(code), "U+{:04X}", code);
            if c.is_whitespace() {
                count += 1;
            }
        }
    }
    assert_eq!(count, 25);
}

#[test]
fn every_white_space_character_is_taken_off_a_part() {
    for code in 0..=0x3000u32 {
        if let Some(c) = char::from_u32(code) {
            if white_space_by_code(code) {
                let text = format!("{}{}a b{}.{}", c, c, c, c);
                assert_eq!(
                    split_trimmed(&text, Delimiters::SentenceEnds),
                    strings(&["a b"]),
                    "U+{:04X}",
                    code
                );
            }
        }
    }
}

#[test]
fn other_characters_stay_on_a_part() {
    let near = [
        0x0008u32, 0x000E, 0x001F, 0x0084, 0x0086, 0x009F, 0x00A1, 0x167F, 0x1681, 0x180E,
        0x1FFF, 0x200B, 0x200C, 0x2027, 0x202A, 0x202E, 0x2030, 0x205E, 0x2060, 0x2FFF, 0x3001,
        0xFEFF,
    ];
    for code in near {
        let c = char::from_u32(code).unwrap();
        let text = format!("{}a{}", c, c);
        assert_eq!(
            split_trimmed(&text, Delimiters::WordBreaks),
            vec![text.clone()],
            "U+{:04X}",
            code
        );
    }
}
