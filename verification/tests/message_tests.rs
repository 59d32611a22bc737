use simpleterm::color::Color;
use simpleterm::message::{process_messages, Message, MessageType};

const GOLD: Color = Color { r: 1000, g: 650, b: 100, a: 1000 };
const GREY: Color = Color { r: 160, g: 160, b: 160, a: 1000 };

#[test]
fn new_message_picks_its_kind() {
    let m = Message::new("hi", GOLD, false);
    assert_eq!(m.text, "hi");
    assert_eq!(m.color, GOLD);
    assert_eq!(m.message_type, MessageType::Normal);
    let q = Message::new("hi", GOLD, true);
    assert_eq!(q.message_type, MessageType::Quote);
}

#[test]
fn default_message_is_empty_and_white() {
    let m = Message::default();
    assert_eq!(m.text, "");
    assert_eq!(m.color, Color { r: 1000, g: 1000, b: 1000, a: 1000 });
    assert_eq!(m.message_type, MessageType::Normal);
}

#[test]
fn quote_flags_follow_the_kind() {
    let normal = Message::new("x", GOLD, false);
    assert!(!normal.has_quote());
    assert!(normal.start_colored());
    let quote = Message::new("x", GOLD, true);
    assert!(quote.has_quote());
    assert!(!quote.start_colored());
    let continued = Message {
        text: "x".to_string(),
        color: GOLD,
        message_type: MessageType::ContinuedQuote,
    };
    assert!(continued.has_quote());
    assert!(continued.start_colored());
}

#[test]
fn quote_line_toggles_color_at_each_quote_mark() {
    // a Quote-kind line starts foreground-colored; the quoted span is shown
    // in the line's own color; each mark is drawn in the color active before
    // its toggle
    let line = Message::new("He said \"hello\" to me", GOLD, true);
    let pairs = line.render_char_colors(GREY);
    let text: String = pairs.iter().map(|p| p.0).collect();
    assert_eq!(text, "He said \"hello\" to me");
    for (i, (_, color)) in pairs.iter().enumerate() {
        let expected = if (9..=14).contains(&i) { GOLD } else { GREY };
        assert_eq!(*color, expected, "character {}", i);
    }
}

#[test]
fn normal_line_never_toggles() {
    let line = Message::new("say \"hi\" now", GOLD, false);
    for (_, color) in line.render_char_colors(GREY) {
        assert_eq!(color, GOLD);
    }
}

#[test]
fn continued_quote_starts_inside_the_quotation() {
    let line = Message {
        text: "rest\" out".to_string(),
        color: GOLD,
        message_type: MessageType::ContinuedQuote,
    };
    let pairs = line.render_char_colors(GREY);
    for (i, (_, color)) in pairs.iter().enumerate() {
        let expected = if i <= 4 { GOLD } else { GREY };
        assert_eq!(*color, expected, "character {}", i);
    }
}

#[test]
fn rewrap_keeps_color_and_kind_on_gathered_lines() {
    let m = Message::new("the quick brown fox", GOLD, true);
    let out = m.process_message(10);
    let texts: Vec<&str> = out.iter().map(|x| x.text.as_str()).collect();
    assert_eq!(texts, vec!["the quick", "brown fox"]);
    for line in &out {
        assert_eq!(line.color, GOLD);
        assert_eq!(line.message_type, MessageType::Quote);
    }
}

#[test]
fn rewrap_makes_chunk_lines_normal() {
    let m = Message::new("abcdefghij", GOLD, true);
    let out = m.process_message(4);
    let texts: Vec<&str> = out.iter().map(|x| x.text.as_str()).collect();
    assert_eq!(texts, vec!["abcd", "efgh", "ij"]);
    for line in &out {
        assert_eq!(line.color, GOLD);
        assert_eq!(line.message_type, MessageType::Normal);
    }
}

#[test]
fn rewrap_mixes_gathered_and_chunk_lines() {
    let m = Message {
        text: "ab obviouslylong".to_string(),
        color: GOLD,
        message_type: MessageType::ContinuedQuote,
    };
    let out = m.process_message(5);
    let texts: Vec<&str> = out.iter().map(|x| x.text.as_str()).collect();
    assert_eq!(texts, vec!["ab ob", "vious", "lylon", "g"]);
    assert_eq!(out[0].message_type, MessageType::ContinuedQuote);
    assert_eq!(out[1].message_type, MessageType::Normal);
    assert_eq!(out[2].message_type, MessageType::Normal);
    assert_eq!(out[3].message_type, MessageType::Normal);
}

#[test]
fn rewrap_of_a_set_chains_in_order() {
    let ms = vec![
        Message::new("one two three", GOLD, false),
        Message::new("", GREY, false),
        Message::new("four", GREY, true),
    ];
    let out = process_messages(&ms, 7);
    let texts: Vec<&str> = out.iter().map(|x| x.text.as_str()).collect();
    assert_eq!(texts, vec!["one two", "three", "four"]);
    assert_eq!(out[0].color, GOLD);
    assert_eq!(out[2].color, GREY);
    assert_eq!(out[2].message_type, MessageType::Quote);
}
