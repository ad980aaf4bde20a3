use msgparser::compose::compose;
use msgparser::fuzz::{
    admits, closed_admitted, emote_admitted, fuzz, open_admitted, text_admitted, FuzzCodeblock,
    FuzzEmote, FuzzMessagePart, FuzzOutcome,
};
use msgparser::parts::{same_part, same_parts};
use msgparser::{parse_parts, MessagePart};

fn text(s: &str) -> FuzzMessagePart {
    FuzzMessagePart::Text(s.to_string())
}

fn emote(t: &str, id: &str) -> FuzzMessagePart {
    FuzzMessagePart::Emote(FuzzEmote { text: t.to_string(), id: id.to_string() })
}

fn closed(s: &str) -> FuzzMessagePart {
    FuzzMessagePart::Codeblock(FuzzCodeblock::Closed(s.to_string()))
}

fn open(s: &str) -> FuzzMessagePart {
    FuzzMessagePart::Codeblock(FuzzCodeblock::Open(s.to_string()))
}

fn sample() -> Vec<FuzzMessagePart> {
    vec![
        text("hello "),
        emote("Kappa", "25"),
        text(" and "),
        closed("`code`"),
        text(" then "),
        emote("Keepo", "1902"),
        text(" bye "),
        open("```"),
    ]
}

#[test]
fn code_block_text_is_its_string() {
    assert_eq!(FuzzCodeblock::Open("`".to_string()).text(), "`");
    assert_eq!(FuzzCodeblock::Closed("```a```".to_string()).text(), "```a```");
}

#[test]
fn as_emote_picks_emotes_only() {
    let e = emote("Kappa", "25");
    let found = e.as_emote().unwrap();
    assert_eq!(found.text, "Kappa");
    assert_eq!(found.id, "25");
    assert!(text("a").as_emote().is_none());
    assert!(closed("`a`").as_emote().is_none());
    assert!(open("`").as_emote().is_none());
}

#[test]
fn compose_makes_message_spans_and_parts() {
    let data = sample();
    let case = compose(&data);
    assert_eq!(case.message, "hello Kappa and `code` then Keepo bye ```");
    assert_eq!(case.emotes, vec![("25", 6..11), ("1902", 28..33)]);
    assert_eq!(
        case.parts,
        vec![
            MessagePart::Text("hello "),
            MessagePart::Emote("25"),
            MessagePart::Text(" and "),
            MessagePart::Codeblock("`code`"),
            MessagePart::Text(" then "),
            MessagePart::Emote("1902"),
            MessagePart::Text(" bye "),
            MessagePart::Codeblock("```"),
        ]
    );
}

#[test]
fn compose_of_nothing_is_empty() {
    let case = compose(&[]);
    assert_eq!(case.message, "");
    assert!(case.emotes.is_empty());
    assert!(case.parts.is_empty());
}

#[test]
fn compose_counts_bytes() {
    let data = vec![text("日本 "), emote("Kappa", "k_1")];
    let case = compose(&data);
    assert_eq!(case.message, "日本 Kappa");
    assert_eq!(case.emotes, vec![("k_1", 7..12)]);
}

#[test]
fn segmenting_a_composed_message_gives_the_parts_back() {
    let data = sample();
    let case = compose(&data);
    assert_eq!(parse_parts(&case.message, &case.emotes), case.parts);
}

#[test]
fn admitted_list_agrees() {
    assert!(admits(&sample()));
    assert_eq!(fuzz(sample()), FuzzOutcome::Agreed);
}

#[test]
fn admitted_lists_of_many_shapes_agree() {
    let lists = vec![
        vec![emote("a", "1"), text(" b "), emote("c", "2"), text(" d"), closed("``")],
        vec![closed("```x```"), text("y "), emote("Z", "z"), text(" "), emote("Q", "q_q")],
        vec![text("é "), emote("K", "k"), text(" "), closed("`a b`"), text("c")],
        vec![closed("```a`b``c```"), text("d "), emote("e", "f"), text(" g"), open("`")],
        vec![text("x"), closed("``"), text("y "), emote("E", "e"), text(" z"), closed("`q`")],
    ];
    for list in lists {
        assert!(admits(&list), "{:?}", list);
        assert_eq!(fuzz(list), FuzzOutcome::Agreed);
    }
}

#[test]
fn short_lists_are_skipped() {
    assert_eq!(fuzz(vec![]), FuzzOutcome::Skipped);
    let four = vec![text("a "), emote("b", "1"), text(" c "), emote("d", "2")];
    assert!(!admits(&four));
    assert_eq!(fuzz(four), FuzzOutcome::Skipped);
}

#[test]
fn lists_without_emote_are_skipped() {
    let list = vec![text("a"), closed("`b`"), text("c"), closed("`d`"), text("e")];
    assert!(!admits(&list));
    assert_eq!(fuzz(list), FuzzOutcome::Skipped);
}

fn with_tail(mut head: Vec<FuzzMessagePart>) -> Vec<FuzzMessagePart> {
    head.extend(vec![text(" t "), emote("A", "a"), text(" u "), emote("B", "b"), text(" v")]);
    head
}

#[test]
fn tail_alone_is_admitted() {
    assert!(admits(&with_tail(vec![])));
    assert!(admits(&with_tail(vec![emote("K", "k")])));
    assert!(admits(&with_tail(vec![closed("`x`")])));
}

#[test]
fn text_after_text_is_skipped() {
    let list = vec![text("a"), text("b "), emote("A", "a"), text(" u "), emote("B", "b")];
    assert_eq!(fuzz(list), FuzzOutcome::Skipped);
}

#[test]
fn emote_after_emote_is_skipped() {
    assert_eq!(fuzz(with_tail(vec![emote("K", "k"), emote("L", "l")])), FuzzOutcome::Skipped);
}

#[test]
fn emote_after_code_is_skipped() {
    assert_eq!(fuzz(with_tail(vec![closed("`x`"), emote("L", "l")])), FuzzOutcome::Skipped);
}

#[test]
fn code_after_emote_is_skipped() {
    assert_eq!(fuzz(with_tail(vec![emote("L", "l"), closed("`x`")])), FuzzOutcome::Skipped);
}

#[test]
fn code_after_code_is_skipped() {
    assert_eq!(fuzz(with_tail(vec![closed("`x`"), closed("`y`")])), FuzzOutcome::Skipped);
}

#[test]
fn emote_needs_a_space_before_it() {
    let list = vec![text("a"), emote("A", "a"), text(" u "), emote("B", "b"), text(" v")];
    assert_eq!(fuzz(list), FuzzOutcome::Skipped);
}

#[test]
fn text_after_emote_needs_a_space_first() {
    let list = vec![emote("A", "a"), text("u "), emote("B", "b"), text(" v "), emote("C", "c")];
    assert_eq!(fuzz(list), FuzzOutcome::Skipped);
}

#[test]
fn open_code_block_must_be_last() {
    let list =
        vec![emote("A", "a"), text(" u "), emote("B", "b"), text(" v"), open("`"), text("w")];
    assert_eq!(fuzz(list), FuzzOutcome::Skipped);
    let list = vec![emote("A", "a"), text(" u "), emote("B", "b"), text(" v"), open("`")];
    assert_eq!(fuzz(list), FuzzOutcome::Agreed);
}

#[test]
fn text_rules() {
    assert!(text_admitted(b"hello world", false));
    assert!(text_admitted(b" hello", true));
    assert!(!text_admitted(b"hello", true));
    assert!(!text_admitted(b"", false));
    assert!(!text_admitted(b"", true));
    assert!(!text_admitted(b"a\tb", false));
    assert!(!text_admitted(b"a\x7fb", false));
    assert!(!text_admitted(b"a  b", false));
    assert!(!text_admitted(b"a`b", false));
    assert!(text_admitted("é ü".as_bytes(), false));
}

#[test]
fn emote_rules() {
    assert!(emote_admitted(b"Kappa123", b"emote_25"));
    assert!(!emote_admitted(b"", b"1"));
    assert!(!emote_admitted(b"K", b""));
    assert!(!emote_admitted(b"Kap_pa", b"1"));
    assert!(!emote_admitted(b"Kap pa", b"1"));
    assert!(!emote_admitted(b"K", b"a-b"));
    assert!(!emote_admitted("é".as_bytes(), b"1"));
}

#[test]
fn closed_code_block_rules() {
    assert!(closed_admitted(b"``"));
    assert!(closed_admitted(b"`a`"));
    assert!(closed_admitted(b"```a```"));
    assert!(closed_admitted(b"```a`b``c```"));
    assert!(!closed_admitted(b""));
    assert!(!closed_admitted(b"a`"));
    assert!(!closed_admitted(b"`"));
    assert!(!closed_admitted(b"`a"));
    assert!(!closed_admitted(b"`a`b`"));
    assert!(!closed_admitted(b"```"));
    assert!(!closed_admitted(b"````"));
    assert!(!closed_admitted(b"``````"));
    assert!(!closed_admitted(b"```a"));
    assert!(!closed_admitted(b"```a```b```"));
    assert!(!closed_admitted(b"```a````"));
    assert!(!closed_admitted(b"``a`"));
}

#[test]
fn open_code_block_rules() {
    assert!(open_admitted(b"`"));
    assert!(open_admitted(b"```"));
    assert!(!open_admitted(b""));
    assert!(!open_admitted(b"``"));
    assert!(!open_admitted(b"`a"));
    assert!(!open_admitted(b"`a`"));
    assert!(!open_admitted(b"````"));
    assert!(!open_admitted(b"```a"));
    assert!(!open_admitted(b"```a```"));
    assert!(!open_admitted(b"x`"));
}

#[test]
fn parts_compare_by_kind_and_bytes() {
    assert!(same_part(&MessagePart::Text("a"), &MessagePart::Text("a")));
    assert!(!same_part(&MessagePart::Text("a"), &MessagePart::Text("b")));
    assert!(!same_part(&MessagePart::Text("a"), &MessagePart::Text("ab")));
    assert!(!same_part(&MessagePart::Text("a"), &MessagePart::Codeblock("a")));
    assert!(!same_part(&MessagePart::Emote("a"), &MessagePart::Text("a")));
    assert!(same_part(&MessagePart::Emote("25"), &MessagePart::Emote("25")));
    assert!(same_part(&MessagePart::Codeblock("`x`"), &MessagePart::Codeblock("`x`")));
    let a = vec![MessagePart::Text("a"), MessagePart::Emote("1")];
    let b = vec![MessagePart::Text("a"), MessagePart::Emote("1")];
    let c = vec![MessagePart::Text("a"), MessagePart::Emote("2")];
    assert!(same_parts(&a, &b));
    assert!(!same_parts(&a, &c));
    assert!(!same_parts(&a, &b[..1]));
    assert!(same_parts(&[], &[]));
}
