use zpack::util::parse::{
    AlphanumericConsumer, BoundedConsumer, ConsumeError, Consumer, ConsumerExt, Cursor,
    EnumConsumer, IntegerConsumer, LiteralConsumer, MatchConsumer, MultiConsumer,
    OptionalConsumer, RawConsumer, WhitespaceConsumer,
};

#[test]
fn test_alphanumeric() {
    let parser = AlphanumericConsumer::default();

    let sample_text = "HelloWorld123.Hello";
    let sample_cursor = Cursor::new(sample_text);

    match parser.consume(sample_cursor) {
        Ok((val, cur)) => {
            assert_eq!(val, "HelloWorld123");
            assert_eq!(cur.remaining(), ".Hello");
        }
        Err(e) => panic!("Failed to parse: {e:?}"),
    }
}

#[test]
fn test_bounded_single() {
    let a = MatchConsumer::new("A");
    let aaa = BoundedConsumer::new(Some(0), Some(5), a);

    let sample_text = "AAAAhello";
    let sample_cursor = Cursor::new(sample_text);

    match aaa.consume(sample_cursor) {
        Ok((found, cur)) => {
            assert_eq!(found.len(), 4);
            assert_eq!(cur.remaining(), "hello");
        }
        Err(e) => panic!("Failed to parse: {e:?}"),
    }
}

#[test]
fn test_bounded_multi() {
    let a = MatchConsumer::new("void");
    let aaa = BoundedConsumer::new(Some(0), None, a);

    let sample_text = "voidvoidvoidvoidvoidvoid123456void";
    let sample_cursor = Cursor::new(sample_text);

    match aaa.consume(sample_cursor) {
        Ok((found, cur)) => {
            assert_eq!(found.len(), 6);
            assert_eq!(cur.remaining(), "123456void");
        }
        Err(e) => panic!("Failed to parse: {e:?}"),
    }
}

#[test]
fn test_cursor() {
    let sample_text = "12345";
    let sample_cursor = Cursor::new(sample_text);
    assert!(sample_cursor.step(4).is_some());
}

#[derive(Debug, PartialEq)]
enum TestEnum {
    Class,
    Function,
}

#[test]
fn test_enum_consumer() {
    let class_lit = MatchConsumer::new("class");
    let class_enum = EnumConsumer::new(class_lit, |_| Ok::<TestEnum, ()>(TestEnum::Class));

    let text = "class MyClass;";
    let cur = Cursor::new(text);

    match class_enum.consume(cur) {
        Ok((matched, cursor)) => {
            assert_eq!(matched, TestEnum::Class);
            assert_eq!(cursor.remaining(), " MyClass;");
        }
        Err(_) => {
            panic!("Something has gone wrong");
        }
    }
}

#[test]
fn integer_test_literal() {
    let parser = IntegerConsumer::default().then_ignore(WhitespaceConsumer::default());

    let sample_text = "12345 Hello";
    let sample_cursor = Cursor::new(sample_text);

    match parser.consume(sample_cursor) {
        Ok((val, cur)) => {
            assert_eq!(val, 12345);
            assert_eq!(cur.remaining(), "Hello");
        }
        Err(e) => panic!("Failed to parse: {e:?}"),
    }
}

#[test]
fn literal_test_literal() {
    let parser = LiteralConsumer::new("Hello");

    let sample_text = "Hello, World!";
    let sample_cursor = Cursor::new(sample_text);

    match parser.consume(sample_cursor) {
        Ok((_, cur)) => {
            assert_eq!(cur.remaining(), ", World!");
        }
        Err(e) => panic!("Failed to parse: {e:?}"),
    }
}

#[test]
fn match_test_literal() {
    let parser = MatchConsumer::new("Hello");

    let sample_text = "Hello, World!";
    let sample_cursor = Cursor::new(sample_text);

    match parser.consume(sample_cursor) {
        Ok((_, cur)) => {
            assert_eq!(cur.remaining(), ", World!");
        }
        Err(e) => panic!("Failed to parse: {e:?}"),
    }
}

#[test]
fn test_multi_consumer() {
    let to_class: fn(()) -> Result<TestEnum, ()> = |_| Ok(TestEnum::Class);
    let to_function: fn(()) -> Result<TestEnum, ()> = |_| Ok(TestEnum::Function);

    let class_lit = MatchConsumer::new("class");
    let class_enum = EnumConsumer::new(class_lit, to_class);

    let function_lit = MatchConsumer::new("function");
    let function_enum = EnumConsumer::new(function_lit, to_function);

    let mut multi_consumer = MultiConsumer::default();
    multi_consumer.push(class_enum);
    multi_consumer.push(function_enum);

    let text = "classfunction;";
    let mut cur = Cursor::new(text);

    match multi_consumer.consume(cur) {
        Ok((matched, cursor)) => {
            assert_eq!(matched, TestEnum::Class);
            assert_eq!(cursor.remaining(), "function;");

            cur = cursor;
        }
        Err(e) => {
            panic!("Something has gone wrong: {e:?}");
        }
    }

    match multi_consumer.consume(cur) {
        Ok((matched, cursor)) => {
            assert_eq!(matched, TestEnum::Function);
            assert_eq!(cursor.remaining(), ";");
        }
        Err(e) => {
            panic!("Something has gone wrong: {e:?}");
        }
    }
}

#[test]
fn test_optional_matching() {
    let lit = MatchConsumer::new("Optional");
    let optional_consumer = OptionalConsumer::new(lit);

    let matching = "OptionalString";
    let matching_cursor = Cursor::new(matching);

    match optional_consumer.consume(matching_cursor) {
        Ok((matched, cursor)) => {
            assert!(matched.is_some());
            assert_eq!(cursor.remaining(), "String");
        }
        Err(e) => panic!("Failed to parse: {e:?}"),
    }
}

#[test]
fn test_optional_not_matching() {
    let lit = MatchConsumer::new("Optional");
    let optional_consumer = OptionalConsumer::new(lit);

    let not_matching = "StringOptional";
    let not_matching_cursor = Cursor::new(not_matching);

    match optional_consumer.consume(not_matching_cursor) {
        Ok((matched, cursor)) => {
            assert!(matched.is_none());
            assert_eq!(cursor.remaining(), "StringOptional");
        }
        Err(e) => {
            panic!("Something has gone wrong: {e:?}");
        }
    }
}

fn leading_word<'a>(cursor: Cursor<'a>) -> Result<(String, Cursor<'a>), ConsumeError> {
    cursor
        .take_while(|c: &char| c.is_ascii_alphanumeric())
        .map(|(s, c)| (s.to_owned(), c))
        .ok_or(ConsumeError::TooShort)
}

#[test]
fn test_raw() {
    let raw = RawConsumer::new(leading_word);

    let sample_text = "Hello, World!";
    let cursor = Cursor::new(sample_text);

    let (res, cur) = match raw.consume(cursor) {
        Ok(found) => found,
        Err(e) => panic!("Stepped past end of string: {e:?}"),
    };

    assert_eq!(res, "Hello");
    assert_eq!(cur.remaining(), ", World!");
}
