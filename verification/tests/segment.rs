use msgparser::MessagePart::{Codeblock, Emote, Text};
use msgparser::{check_spans, parse_parts, try_parse_parts, MessagePart, PreconditionError};

#[test]
fn test() {
    let msg = r#"hello `world " Kappa " lol ` Kappa `"#;
    let emotes = vec![("25", 15..19), ("25", 29..33)];
    let parts = parse_parts(msg, &emotes);
    println!("{:#?}", parts);
    assert_eq!(
        parts,
        vec![
            Text("hello "),
            Codeblock("`world \" Kappa \" lol `"),
            Text(" "),
            Emote("25"),
            Text("a "),
            Codeblock("`"),
        ]
    );
}

#[test]
fn test_eh() {
    let msg = r#"Q``Q``c```d```"#;
    let parts = parse_parts(msg, &[]);
    println!("{:#?}", parts);
    assert_eq!(
        parts,
        vec![
            Text("Q"),
            Codeblock("``"),
            Text("Q"),
            Codeblock("``"),
            Text("c"),
            Codeblock("```d```"),
        ]
    );
}

#[test]
fn test_eh2() {
    let msg = r#"``QQQ`` c `"#;
    let parts = parse_parts(msg, &[("cQ", 8..9)]);
    println!("{:#?}", parts);
    assert_eq!(
        parts,
        vec![
            Codeblock("``"),
            Text("QQQ"),
            Codeblock("``"),
            Text(" "),
            Emote("cQ"),
            Text(" "),
            Codeblock("`"),
        ]
    );
}

#[test]
fn triple_fence_is_one_code_block() {
    assert_eq!(parse_parts("```abc```", &[]), vec![Codeblock("```abc```")]);
}

#[test]
fn single_fence_between_text() {
    assert_eq!(
        parse_parts("a `b` c", &[]),
        vec![Text("a "), Codeblock("`b`"), Text(" c")]
    );
}

#[test]
fn unterminated_triple_fence_runs_to_the_end() {
    assert_eq!(parse_parts("x ```y", &[]), vec![Text("x "), Codeblock("```y")]);
}

#[test]
fn unterminated_single_fence_runs_to_the_end() {
    assert_eq!(parse_parts("a`b", &[]), vec![Text("a"), Codeblock("`b")]);
}

#[test]
fn emote_inside_code_block_is_dropped() {
    let parts = parse_parts("``QQQ`` c `", &[("e", 1..2)]);
    assert_eq!(
        parts,
        vec![
            Codeblock("``"),
            Text("QQQ"),
            Codeblock("``"),
            Text(" c "),
            Codeblock("`"),
        ]
    );
    assert!(!parts.iter().any(|p| matches!(p, Emote(_))));
}

#[test]
fn several_emotes_lost_to_one_code_block() {
    assert_eq!(
        parse_parts("a```b```c", &[("x", 2..3), ("y", 4..5), ("z", 8..9)]),
        vec![Text("a"), Codeblock("```b```"), Emote("z")]
    );
}

#[test]
fn open_code_block_ends_the_output() {
    assert_eq!(
        parse_parts("a```Kappa Keepo", &[("1", 4..9), ("2", 10..15)]),
        vec![Text("a"), Codeblock("```Kappa Keepo")]
    );
}

#[test]
fn emote_at_a_backtick_wins() {
    assert_eq!(
        parse_parts("``QQQ`` c `", &[("e", 0..1)]),
        vec![Emote("e"), Codeblock("`QQQ`"), Codeblock("` c `")]
    );
}

#[test]
fn emote_may_cover_a_backtick() {
    assert_eq!(
        parse_parts("ab`cd", &[("1", 1..3)]),
        vec![Text("a"), Emote("1"), Text("cd")]
    );
}

#[test]
fn emotes_only() {
    assert_eq!(
        parse_parts("Kappa Keepo", &[("1", 0..5), ("2", 6..11)]),
        vec![Emote("1"), Text(" "), Emote("2")]
    );
}

#[test]
fn emotes_next_to_code_blocks_leave_no_empty_text() {
    assert_eq!(
        parse_parts("x`y`z", &[("1", 0..1), ("2", 4..5)]),
        vec![Emote("1"), Codeblock("`y`"), Emote("2")]
    );
}

#[test]
fn empty_message_has_no_parts() {
    assert_eq!(parse_parts("", &[]), Vec::<MessagePart>::new());
    assert_eq!(parse_parts("", &[("e", 0..0)]), Vec::<MessagePart>::new());
}

#[test]
fn plain_text_is_one_part() {
    assert_eq!(parse_parts("plain", &[]), vec![Text("plain")]);
}

#[test]
fn only_backticks() {
    assert_eq!(parse_parts("`", &[]), vec![Codeblock("`")]);
    assert_eq!(parse_parts("``", &[]), vec![Codeblock("``")]);
    assert_eq!(parse_parts("```", &[]), vec![Codeblock("```")]);
    assert_eq!(parse_parts("````", &[]), vec![Codeblock("````")]);
    assert_eq!(parse_parts("`````", &[]), vec![Codeblock("`````")]);
    assert_eq!(parse_parts("``````", &[]), vec![Codeblock("``````")]);
    assert_eq!(
        parse_parts("```````", &[]),
        vec![Codeblock("``````"), Codeblock("`")]
    );
}

#[test]
fn triple_fence_ignores_shorter_runs_inside() {
    assert_eq!(
        parse_parts("```a``b```c", &[]),
        vec![Codeblock("```a``b```"), Text("c")]
    );
}

#[test]
fn empty_spans_are_kept_in_order() {
    assert_eq!(
        parse_parts("ab", &[("x", 1..1), ("y", 1..1)]),
        vec![Text("a"), Emote("x"), Emote("y"), Text("b")]
    );
}

#[test]
fn empty_span_at_the_end() {
    assert_eq!(parse_parts("abc", &[("x", 3..3)]), vec![Text("abc"), Emote("x")]);
    assert_eq!(parse_parts("a`", &[("x", 2..2)]), vec![Text("a"), Codeblock("`")]);
}

#[test]
fn offsets_are_bytes() {
    let msg = "日本語 `コード` Kappa";
    assert_eq!(msg.len(), 27);
    assert_eq!(
        parse_parts(msg, &[("k", 22..27)]),
        vec![Text("日本語 "), Codeblock("`コード`"), Text(" "), Emote("k")]
    );
}

#[test]
fn parts_put_together_give_the_message() {
    let msg = r#"hello `world " Kappa " lol ` Kappa `"#;
    let emotes = vec![("25", 15..19), ("25", 29..33)];
    let parts = parse_parts(msg, &emotes);
    let mut kept = vec![&msg[29..33]].into_iter();
    let mut again = String::new();
    for part in &parts {
        match part {
            Text(t) | Codeblock(t) => again.push_str(t),
            Emote(_) => again.push_str(kept.next().unwrap()),
        }
    }
    assert_eq!(again, msg);
}

#[test]
fn no_text_part_is_empty() {
    for msg in ["`a`b`c", "x`y`z", "``", "a``b", "Kappa`"] {
        let emotes = vec![("1", 0..1)];
        for part in parse_parts(msg, &emotes) {
            assert_ne!(part, Text(""));
        }
    }
}

#[test]
fn kept_emotes_appear_once_and_in_order() {
    let parts = parse_parts("ab`cd`ef", &[("1", 0..2), ("2", 3..5), ("3", 6..8)]);
    assert_eq!(parts, vec![Emote("1"), Codeblock("`cd`"), Emote("3")]);
}

#[test]
fn checked_parse_agrees_on_good_spans() {
    let msg = "a `Kappa` b Kappa";
    let emotes = vec![("1", 3..8), ("2", 12..17)];
    assert_eq!(check_spans(msg, &emotes), Ok(()));
    assert_eq!(
        try_parse_parts(msg, &emotes),
        Ok(vec![Text("a "), Codeblock("`Kappa`"), Text(" b "), Emote("2")])
    );
}

#[test]
fn unsorted_spans_are_refused() {
    let emotes = vec![("2", 6..11), ("1", 0..5)];
    assert_eq!(check_spans("Kappa Keepo", &emotes), Err(PreconditionError::NotSorted));
    assert_eq!(try_parse_parts("Kappa Keepo", &emotes), Err(PreconditionError::NotSorted));
    assert_eq!(try_parse_parts("", &emotes), Err(PreconditionError::NotSorted));
    assert_eq!(try_parse_parts("```", &emotes), Err(PreconditionError::NotSorted));
}

#[test]
fn overlapping_spans_are_refused() {
    let emotes = vec![("1", 0..5), ("2", 4..9)];
    assert_eq!(try_parse_parts("Kappa Keepo", &emotes), Err(PreconditionError::NotSorted));
    assert_eq!(try_parse_parts("x", &emotes), Err(PreconditionError::NotSorted));
}

#[test]
fn touching_spans_are_accepted() {
    assert_eq!(
        try_parse_parts("KappaKeepo", &[("1", 0..5), ("2", 5..10)]),
        Ok(vec![Emote("1"), Emote("2")])
    );
}

#[test]
fn spans_outside_the_message_are_refused() {
    assert_eq!(try_parse_parts("abc", &[("1", 2..4)]), Err(PreconditionError::OutOfRange));
    assert_eq!(try_parse_parts("abc", &[("1", 5..6)]), Err(PreconditionError::OutOfRange));
    assert_eq!(try_parse_parts("abc", &[("1", 2..1)]), Err(PreconditionError::OutOfRange));
}

#[test]
fn spans_that_cut_a_character_are_refused() {
    assert_eq!(try_parse_parts("héllo", &[("1", 2..3)]), Err(PreconditionError::OutOfRange));
    assert_eq!(try_parse_parts("héllo", &[("1", 0..2)]), Err(PreconditionError::OutOfRange));
    assert_eq!(
        try_parse_parts("héllo", &[("1", 1..3)]),
        Ok(vec![Text("h"), Emote("1"), Text("llo")])
    );
}

#[test]
fn order_is_checked_before_ranges() {
    assert_eq!(
        try_parse_parts("abc", &[("1", 7..9), ("2", 0..1)]),
        Err(PreconditionError::NotSorted)
    );
}
