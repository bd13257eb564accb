use pushparse::constant;
use pushparse::AndThenParser;
use pushparse::BufferableMatcher;
use pushparse::BufferedParser;
use pushparse::CollectConsumer;
use pushparse::CommittedParser;
use pushparse::DiscardConsumer;
use pushparse::MatchResult;
use pushparse::Parser;

#[test]
fn test_constant() {
    let mut parser = constant(String::from("abc"));
    let mut sink = DiscardConsumer::new();
    assert_eq!(parser.done(&mut sink), false);
    assert_eq!(parser.push("fred", &mut sink), MatchResult::Failed(true));
    assert_eq!(parser.done(&mut sink), false);
    assert_eq!(parser.push("abcdef", &mut sink), MatchResult::Matched("def"));
    assert_eq!(parser.done(&mut sink), true);
    assert_eq!(parser.push("a", &mut sink), MatchResult::Undecided);
    assert_eq!(parser.done(&mut sink), false);
    assert_eq!(parser.push("ab", &mut sink), MatchResult::Undecided);
    assert_eq!(parser.push("cd", &mut sink), MatchResult::Matched("d"));
    assert_eq!(parser.done(&mut sink), true);
}

#[test]
fn split_point_is_irrelevant() {
    let text = "abcd";
    let mut sink = DiscardConsumer::new();
    for split in 0..=text.len() {
        let (first, second) = text.split_at(split);
        let mut split_parser = constant(String::from("abc"));
        let _ = split_parser.push(first, &mut sink);
        let split_result = split_parser.push(second, &mut sink);
        assert!(matches!(split_result, MatchResult::Matched(_)));
        assert_eq!(split_parser.done(&mut sink), true);
    }
    let mut whole_parser = constant(String::from("abc"));
    assert_eq!(whole_parser.push(text, &mut sink), MatchResult::Matched("d"));
    assert_eq!(whole_parser.done(&mut sink), true);
}

#[test]
fn empty_chunk_is_a_no_op() {
    let mut parser = constant(String::from("abc"));
    let mut sink = DiscardConsumer::new();
    assert_eq!(parser.push("", &mut sink), MatchResult::Undecided);
    assert_eq!(parser.push("ab", &mut sink), MatchResult::Undecided);
    assert_eq!(parser.push("", &mut sink), MatchResult::Undecided);
    assert_eq!(parser.push("c!", &mut sink), MatchResult::Matched("!"));
    assert_eq!(parser.done(&mut sink), true);
}

#[test]
fn empty_target_matches_immediately() {
    let mut parser = constant(String::new());
    let mut sink = DiscardConsumer::new();
    assert_eq!(parser.push("xy", &mut sink), MatchResult::Matched("xy"));
    assert_eq!(parser.done(&mut sink), true);
    assert_eq!(parser.push("", &mut sink), MatchResult::Matched(""));
    assert_eq!(parser.done(&mut sink), true);
}

#[test]
fn terminal_replies_are_idempotent() {
    let mut parser = constant(String::from("abc"));
    let mut sink = DiscardConsumer::new();
    assert_eq!(parser.push("zzz", &mut sink), MatchResult::Failed(true));
    assert_eq!(parser.push("abc", &mut sink), MatchResult::Failed(true));
    assert_eq!(parser.done(&mut sink), false);
    assert_eq!(parser.push("abc", &mut sink), MatchResult::Matched(""));
    assert_eq!(parser.push("xyz", &mut sink), MatchResult::Matched("xyz"));
    assert_eq!(parser.done(&mut sink), true);
}

#[test]
fn multibyte_text_across_chunks() {
    let mut parser = constant(String::from("na\u{ef}ve"));
    let mut sink = DiscardConsumer::new();
    assert_eq!(parser.push("na\u{ef}", &mut sink), MatchResult::Undecided);
    assert_eq!(parser.push("ve!", &mut sink), MatchResult::Matched("!"));
    assert_eq!(parser.done(&mut sink), true);
}

#[test]
fn committed_maps_outcomes() {
    let mut parser = CommittedParser::new(constant(String::from("abc")));
    let mut sink = DiscardConsumer::new();
    assert_eq!(parser.push("a", &mut sink), MatchResult::Committed);
    assert_eq!(parser.push("xyz", &mut sink), MatchResult::Failed(false));
    assert_eq!(parser.push("bc", &mut sink), MatchResult::Failed(false));
    assert_eq!(parser.done(&mut sink), false);
    assert_eq!(parser.push("abcz", &mut sink), MatchResult::Matched("z"));
    assert_eq!(parser.done(&mut sink), true);
}

#[test]
fn and_then_matches_in_one_chunk() {
    let mut parser = AndThenParser::new(
        constant(String::from("ab")),
        constant(String::from("cd")),
    );
    let mut sink = DiscardConsumer::new();
    assert_eq!(parser.push("abcd", &mut sink), MatchResult::Matched(""));
    assert_eq!(parser.done(&mut sink), true);
    assert_eq!(parser.push("abxy", &mut sink), MatchResult::Failed(false));
    assert_eq!(parser.done(&mut sink), false);
}

#[test]
fn and_then_across_chunks() {
    let mut parser = AndThenParser::new(
        constant(String::from("ab")),
        constant(String::from("cd")),
    );
    let mut sink = DiscardConsumer::new();
    assert_eq!(parser.push("a", &mut sink), MatchResult::Undecided);
    assert_eq!(parser.push("bc", &mut sink), MatchResult::Committed);
    assert_eq!(parser.push("d", &mut sink), MatchResult::Matched(""));
    assert_eq!(parser.done(&mut sink), true);
}

#[test]
fn and_then_left_failure_is_backtrackable() {
    let mut parser = AndThenParser::new(
        constant(String::from("ab")),
        constant(String::from("cd")),
    );
    let mut sink = DiscardConsumer::new();
    assert_eq!(parser.push("ax", &mut sink), MatchResult::Failed(true));
    assert_eq!(parser.done(&mut sink), false);
}

#[test]
fn buffered_match_across_chunks() {
    let mut parser = BufferedParser::new(constant(String::from("ab")));
    let mut sink = CollectConsumer::new();
    assert_eq!(parser.push("a", &mut sink), MatchResult::Undecided);
    assert_eq!(sink.received.len(), 0);
    assert_eq!(parser.push("bc", &mut sink), MatchResult::Matched("c"));
    assert_eq!(sink.received, vec![String::from("ab")]);
}

#[test]
fn buffered_single_chunk_match() {
    let mut parser = BufferedParser::new(constant(String::from("ab")));
    let mut sink = CollectConsumer::new();
    assert_eq!(parser.push("abc", &mut sink), MatchResult::Matched("c"));
    assert_eq!(sink.received, vec![String::from("ab")]);
}

#[test]
fn buffered_failure_does_not_emit() {
    let mut parser = BufferedParser::new(constant(String::from("ab")));
    let mut sink = CollectConsumer::new();
    assert_eq!(parser.push("a", &mut sink), MatchResult::Undecided);
    assert_eq!(parser.push("zz", &mut sink), MatchResult::Failed(true));
    assert_eq!(parser.push("ab", &mut sink), MatchResult::Failed(true));
    assert_eq!(sink.received.len(), 0);
    assert_eq!(parser.done(&mut sink), false);
}

#[test]
fn buffered_reset_between_runs() {
    let mut parser = BufferedParser::new(constant(String::from("ab")));
    let mut sink = CollectConsumer::new();
    assert_eq!(parser.push("a", &mut sink), MatchResult::Undecided);
    assert_eq!(parser.done(&mut sink), false);
    assert_eq!(sink.received.len(), 0);
    assert_eq!(parser.push("abq", &mut sink), MatchResult::Matched("q"));
    assert_eq!(sink.received, vec![String::from("ab")]);
}

#[test]
fn buffer_upgrades_to_capturing() {
    let mut parser: BufferedParser<_> = constant(String::from("ab")).buffer();
    let mut sink = CollectConsumer::new();
    assert_eq!(parser.push("a", &mut sink), MatchResult::Undecided);
    assert_eq!(parser.push("b", &mut sink), MatchResult::Matched(""));
    assert_eq!(sink.received, vec![String::from("ab")]);
}
