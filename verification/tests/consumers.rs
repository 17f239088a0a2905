use zpack::util::parse::bounded::BoundedConsumer;
use zpack::util::parse::integer::parse_decimal;
use zpack::util::parse::map::MapError;
use zpack::util::parse::then::ThenError;
use zpack::util::parse::{
    AlphanumericConsumer, ConsumeError, Consumer, ConsumerExt, Cursor, IntegerConsumer,
    LiteralConsumer, MatchConsumer, MultiConsumer, OptionalConsumer, WhitespaceConsumer,
};

#[test]
fn cursor_steps_by_characters() {
    let mut cursor = Cursor::new("héllo");
    assert_eq!(cursor.peek(), Some('h'));
    assert_eq!(cursor.step_mut(2), Some("hé"));
    assert_eq!(cursor.remaining(), "llo");
    assert_eq!(cursor.peek(), Some('h'));
    assert_eq!(cursor.step_mut(4), None);
    assert_eq!(cursor.remaining(), "llo");
    assert_eq!(cursor.step_mut(3), Some("llo"));
    assert_eq!(cursor.step_mut(0), Some(""));
    assert_eq!(Cursor::new("").peek(), None);
}

#[test]
fn cursor_step_is_held_against_the_bytes() {
    let cursor = Cursor::new("éé");
    let (taken, next) = cursor.step(3).expect("three is no more than four bytes");
    assert_eq!(taken, "éé");
    assert_eq!(next.remaining(), "");
    assert!(cursor.step(5).is_none());
}

#[test]
fn cursor_takes_while_the_predicate_holds() {
    let cursor = Cursor::new("aab");
    let (taken, next) = cursor.take_while(|c: &char| *c == 'a').unwrap();
    assert_eq!(taken, "aa");
    assert_eq!(next.remaining(), "b");
    let (none, same) = cursor.take_while(|c: &char| *c == 'x').unwrap();
    assert_eq!(none, "");
    assert_eq!(same.remaining(), "aab");
    assert!(cursor.take_while_non_zero(|c: &char| *c == 'x').is_none());
    assert_eq!(cursor.take_while_non_zero(|c: &char| *c != 'b').unwrap().0, "aa");
}

#[test]
fn consumers_say_why_they_fail() {
    let at = |text: &'static str| Cursor::new(text);
    assert!(matches!(AlphanumericConsumer::new().consume(at(".x")), Err(ConsumeError::Alphanumeric)));
    assert!(matches!(IntegerConsumer::new().consume(at("x1")), Err(ConsumeError::Digits)));
    assert!(matches!(
        IntegerConsumer::new().consume(at("170141183460469231731687303715884105728")),
        Err(ConsumeError::IntegerRange)
    ));
    assert!(matches!(
        IntegerConsumer::new().consume(at("170141183460469231731687303715884105727")),
        Ok((i128::MAX, _))
    ));
    assert!(matches!(WhitespaceConsumer::default().consume(at("x ")), Err(ConsumeError::Whitespace)));
    assert!(matches!(LiteralConsumer::new("abc").consume(at("ab")), Err(ConsumeError::TooShort)));
    assert!(matches!(LiteralConsumer::new("abc").consume(at("abd")), Err(ConsumeError::Mismatch)));
    assert!(matches!(MatchConsumer::new("abc").consume(at("ab")), Err(ConsumeError::Mismatch)));
    assert!(matches!(
        BoundedConsumer::new(Some(2), Some(4), MatchConsumer::new("a")).consume(at("ab")),
        Err(ConsumeError::Count { found: 1 })
    ));
    assert!(matches!(
        BoundedConsumer::new(None, Some(2), MatchConsumer::new("a")).consume(at("aab")),
        Err(ConsumeError::Count { found: 2 })
    ));
    assert!(matches!(
        BoundedConsumer::one_or_more(MatchConsumer::new("a")).consume(at("b")),
        Err(ConsumeError::Count { found: 0 })
    ));
    assert_eq!(BoundedConsumer::zero_or_more(MatchConsumer::new("a")).consume(at("b")).unwrap().0.len(), 0);
    let multi: MultiConsumer<MatchConsumer> = MultiConsumer::new_with(vec![MatchConsumer::new("a")]);
    assert!(matches!(multi.consume(at("b")), Err(())));
    assert!(matches!(MultiConsumer::<MatchConsumer>::new().consume(at("a")), Err(())));
}

#[test]
fn consumers_in_a_row_say_which_failed() {
    let first = MatchConsumer::new("a").then(MatchConsumer::new("b"));
    assert!(matches!(first.consume(Cursor::new("xb")), Err(ThenError::First(ConsumeError::Mismatch))));
    assert!(matches!(first.consume(Cursor::new("ax")), Err(ThenError::Second(ConsumeError::Mismatch))));
    assert!(matches!(first.consume(Cursor::new("ab")), Ok((((), ()), _))));
    let second = MatchConsumer::new("a").ignore_then(IntegerConsumer::new());
    assert!(matches!(second.consume(Cursor::new("a42")), Ok((42, _))));
    let maybe = IntegerConsumer::new().maybe(MatchConsumer::new("!"));
    assert!(matches!(maybe.consume(Cursor::new("7!")), Ok(((7, Some(())), _))));
    assert!(matches!(maybe.consume(Cursor::new("7?")), Ok(((7, None), _))));
    let kept = IntegerConsumer::new().maybe_ignore(WhitespaceConsumer::default());
    let (n, rest) = kept.consume(Cursor::new("5  x")).unwrap();
    assert_eq!((n, rest.remaining()), (5, "x"));
    let skipped = WhitespaceConsumer::default().ignore_maybe(IntegerConsumer::new());
    assert!(matches!(skipped.consume(Cursor::new(" x")), Ok((None, _))));
    let twice = OptionalConsumer::new(OptionalConsumer::new(MatchConsumer::new("a")));
    assert!(matches!(twice.consume(Cursor::new("b")), Ok((Some(None), _))));
}

#[test]
fn mapped_consumer_applies_the_function() {
    let even = IntegerConsumer::new().map(|n: i128| if n % 2 == 0 { Ok(n / 2) } else { Err(n) });
    assert!(matches!(even.consume(Cursor::new("10")), Ok((5, _))));
    assert!(matches!(even.consume(Cursor::new("11")), Err(MapError::FunctionError(11))));
    assert!(matches!(
        even.consume(Cursor::new("x")),
        Err(MapError::ConsumeError(ConsumeError::Digits))
    ));
}

#[test]
fn consumers_describe_themselves() {
    assert_eq!(AlphanumericConsumer::new().info(), "alphanumeric");
    assert_eq!(IntegerConsumer::new().info(), "integer");
    assert_eq!(WhitespaceConsumer::default().info(), "whitespace");
    assert_eq!(LiteralConsumer::new("ab").info(), "literal 'ab'");
    assert_eq!(MatchConsumer::new("ab").info(), "matching 'ab'");
    assert_eq!(OptionalConsumer::new(IntegerConsumer::new()).info(), "optional[integer]");
    assert_eq!(IntegerConsumer::new().then(WhitespaceConsumer::default()).info(), "integer then whitespace");
    assert_eq!(IntegerConsumer::new().map(|n: i128| Ok::<i128, ()>(n)).info(), "f(integer)");
    let a = || MatchConsumer::new("a");
    assert_eq!(BoundedConsumer::new(Some(2), Some(14), a()).info(), "Between 2 and 14 instances of matching 'a'");
    assert_eq!(BoundedConsumer::new(Some(1), None, a()).info(), "Expected at least 1 instances of matching 'a'");
    assert_eq!(BoundedConsumer::new(None, Some(3), a()).info(), "Expected at most 3 instances of matching 'a'");
    assert_eq!(BoundedConsumer::new(None, None, a()).info(), "Expected at least one matching 'a'");
    let mut multi = MultiConsumer::new();
    assert_eq!(multi.info(), "one of: ");
    multi.push(a());
    multi.push(MatchConsumer::new("b"));
    assert_eq!(multi.info(), "one of: matching 'a', matching 'b'");
}

#[test]
fn decimal_is_read_where_it_fits() {
    assert_eq!(parse_decimal("0"), Some(0));
    assert_eq!(parse_decimal("007"), Some(7));
    assert_eq!(parse_decimal(""), Some(0));
    assert_eq!(parse_decimal("340282366920938463463374607431768211456"), None);
}
