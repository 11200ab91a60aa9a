use unity_log::{LogLine, LogType, UnityLog};

fn parse(text: &str) -> Vec<LogLine> {
    UnityLog::new().parse(text)
}

fn parse_all(text: &str) -> Vec<LogLine> {
    let mut log = UnityLog::new();
    log.no_collapse = true;
    log.parse(text)
}

#[test]
fn defaults() {
    let log = UnityLog::new();
    assert_eq!(log.count, 3);
    assert!(!log.no_collapse);
    let d = UnityLog::default();
    assert_eq!(d.count, 3);
    assert!(!d.no_collapse);
}

#[test]
fn marker_first_block_is_a_log_entry() {
    let lines = parse("UnityEngine.Debug:Log(String)\nHello World\n  at Foo.Bar()\n\n\n");
    assert_eq!(lines.len(), 1);
    let l = &lines[0];
    assert_eq!(l.log_type, LogType::Log);
    // the message is the first line of the block
    assert_eq!(l.message, "UnityEngine.Debug:Log(String)");
    assert_eq!(l.callstack, "UnityEngine.Debug:Log(String)\nHello World\n  at Foo.Bar()");
    assert_eq!(l.trimmed_callstack, "Hello World\n  at Foo.Bar()");
    assert_eq!(l.short(3), "Hello Worldat Foo.Bar()");
}

#[test]
fn log_error_marker_gives_error() {
    let lines = parse("UnityEngine.Debug:LogError(String)\nError: Hello Error\n  at Foo.Bar()\n\n\n");
    assert_eq!(lines.len(), 1);
    assert_eq!(lines[0].log_type, LogType::Error);
}

#[test]
fn log_warning_marker_gives_warning() {
    let lines = parse("Careful\nUnityEngine.Debug:LogWarning(Object)\nGame:Update()\n");
    assert_eq!(lines.len(), 1);
    assert_eq!(lines[0].log_type, LogType::Warning);
    assert_eq!(lines[0].message, "Careful");
    assert_eq!(lines[0].trimmed_callstack, "Game:Update()\n");
}

#[test]
fn identical_messages_collapse_to_one() {
    let text = "Hello World\nUnityEngine.Debug:Log(Object)\nFoo:Bar()\n\nHello World\nUnityEngine.Debug:Log(Object)\nFoo:Baz()\n";
    let lines = parse(text);
    assert_eq!(lines.len(), 1);
    assert_eq!(lines[0].message, "Hello World");
    // the first occurrence is the one kept
    assert_eq!(lines[0].trimmed_callstack, "Foo:Bar()");
    let all = parse_all(text);
    assert_eq!(all.len(), 2);
    assert_eq!(all[1].trimmed_callstack, "Foo:Baz()\n");
}

#[test]
fn collapsing_sorts_by_message_then_severity() {
    let text = "b\nUnityEngine.Debug:Log(Object)\nX:Y()\n\na\nUnityEngine.Debug:LogError(Object)\nX:Y()\n\na\nUnityEngine.Debug:Log(Object)\nX:Y()\n\nb\nUnityEngine.Debug:Log(Object)\nX:Z()";
    let lines = parse(text);
    assert_eq!(lines.len(), 3);
    assert_eq!((lines[0].message.as_str(), lines[0].log_type), ("a", LogType::Log));
    assert_eq!((lines[1].message.as_str(), lines[1].log_type), ("a", LogType::Error));
    assert_eq!((lines[2].message.as_str(), lines[2].log_type), ("b", LogType::Log));
    assert_eq!(lines[2].trimmed_callstack, "X:Y()");
    for i in 0..lines.len() {
        for j in 0..lines.len() {
            if i != j {
                assert!(!lines[i].same(&lines[j]));
            }
        }
    }
}

#[test]
fn no_collapse_keeps_document_order() {
    let text = "b\nUnityEngine.Debug:Log(Object)\nX:Y()\n\nno marker here\nat all\n\na\nUnityEngine.Debug:Log(Object)\nX:Y()\n\nb\nUnityEngine.Debug:Log(Object)\nX:Y()";
    let lines = parse_all(text);
    let messages: Vec<&str> = lines.iter().map(|l| l.message.as_str()).collect();
    assert_eq!(messages, vec!["b", "a", "b"]);
}

#[test]
fn helper_frame_is_trimmed() {
    let lines = parse("Msg\nUnityEngine.Debug:Log(Object)\nMyLogger:Info(String)\nGame:Update()\nGame:Tick()");
    assert_eq!(lines[0].trimmed_callstack, "Game:Update()\nGame:Tick()");
    let lines = parse("Msg\nUnityEngine.Debug:Log(Object)\nMy.Debug.Helper()\nGame:Update()");
    assert_eq!(lines[0].trimmed_callstack, "Game:Update()");
    let lines = parse("Msg\nUnityEngine.Debug:Log(Object)\nGame:Update()\nGame:Tick()");
    assert_eq!(lines[0].trimmed_callstack, "Game:Update()\nGame:Tick()");
}

#[test]
fn last_marker_decides() {
    let lines = parse("UnityEngine.Debug:LogError said\nUnityEngine.Debug:LogWarning(Object)\nGame:Update()");
    assert_eq!(lines.len(), 1);
    assert_eq!(lines[0].log_type, LogType::Warning);
    assert_eq!(lines[0].message, "UnityEngine.Debug:LogError said");
    assert_eq!(lines[0].trimmed_callstack, "Game:Update()");
}

#[test]
fn plain_text_falls_back() {
    let lines = parse_all("first line\nsecond\n\nsingle\n\nthird\nfourth\nfifth");
    assert_eq!(lines.len(), 2);
    assert_eq!(lines[0].log_type, LogType::Unknown);
    assert_eq!(lines[0].message, "first line");
    assert_eq!(lines[0].trimmed_callstack, "second");
    assert_eq!(lines[1].log_type, LogType::Unknown);
    assert_eq!(lines[1].message, "third");
    assert_eq!(lines[1].trimmed_callstack, "fourth\nfifth");
}

#[test]
fn marker_without_line_feed_falls_back() {
    let lines = parse("intro\nends with UnityEngine.Debug:Log");
    assert_eq!(lines.len(), 1);
    assert_eq!(lines[0].log_type, LogType::Unknown);
    assert_eq!(lines[0].message, "intro");
}

#[test]
fn empty_input_gives_nothing() {
    assert!(parse("").is_empty());
    assert!(parse_all("").is_empty());
}

#[test]
fn line_endings_are_normalized() {
    let text = "Msg\r\nUnityEngine.Debug:LogWarning(Object)\r\nA:B()\r\n\r\nMsg2\rUnityEngine.Debug:Log(Object)\rC:D()";
    let lines = parse_all(text);
    assert_eq!(lines.len(), 2);
    assert_eq!(lines[0].log_type, LogType::Warning);
    assert_eq!(lines[0].callstack, "Msg\nUnityEngine.Debug:LogWarning(Object)\nA:B()");
    assert_eq!(lines[1].message, "Msg2");
    assert_eq!(lines[1].trimmed_callstack, "C:D()");
}

#[test]
fn short_takes_count_lines_trimmed() {
    let lines = parse("M\nUnityEngine.Debug:Log(Object)\n  A:a()  \n\tB:b()\n C:c()\n D:d()");
    let l = &lines[0];
    assert_eq!(l.short(0), "");
    assert_eq!(l.short(1), "A:a()");
    assert_eq!(l.short(3), "A:a()B:b()C:c()");
    assert_eq!(l.short(10), "A:a()B:b()C:c()D:d()");
}

#[test]
fn short_of_empty_stack_is_empty() {
    let lines = parse("M\nUnityEngine.Debug:Log(Object)\n");
    assert_eq!(lines.len(), 1);
    assert_eq!(lines[0].trimmed_callstack, "");
    assert_eq!(lines[0].short(3), "");
}

#[test]
fn short_trims_unicode_whitespace() {
    let lines = parse("M\nUnityEngine.Debug:Log(Object)\n\u{3000}é:ü()\u{a0}\n");
    assert_eq!(lines[0].short(3), "é:ü()");
}

#[test]
fn rows_carry_severity_message_and_short() {
    let mut log = UnityLog::new();
    log.count = 1;
    let lines = log.parse("Boom\nUnityEngine.Debug:LogError(Object)\nA:a()\nB:b()");
    let rows = log.rows(&lines);
    assert_eq!(rows.len(), 1);
    assert_eq!(rows[0].log_type.name(), "Error");
    assert_eq!(rows[0].message, "Boom");
    assert_eq!(rows[0].short, "A:a()");
}

#[test]
fn severity_names() {
    assert_eq!(LogType::Log.name(), "Log");
    assert_eq!(LogType::Warning.name(), "Warning");
    assert_eq!(LogType::Error.name(), "Error");
    assert_eq!(LogType::Unknown.name(), "Unknown");
}

#[test]
fn same_compares_severity_and_message() {
    let lines = parse_all("a\nUnityEngine.Debug:Log(Object)\nX()\n\na\nUnityEngine.Debug:LogError(Object)\nX()\n\na\nUnityEngine.Debug:Log(Object)\nY()");
    assert_eq!(lines.len(), 3);
    assert!(!lines[0].same(&lines[1]));
    assert!(lines[0].same(&lines[2]));
}

#[test]
fn normalizing_twice_changes_nothing() {
    let text = "a\r\r\nUnityEngine.Debug:Log(Object)\r\rB()\n\r\nc";
    let once = parse_all(text);
    let twice_text = once
        .iter()
        .map(|l| l.callstack.clone())
        .collect::<Vec<String>>()
        .join("\n\n");
    let twice = parse_all(&twice_text);
    assert_eq!(once.len(), twice.len());
    for (a, b) in once.iter().zip(twice.iter()) {
        assert_eq!(a.callstack, b.callstack);
        assert!(!a.callstack.contains('\r'));
    }
}

#[test]
fn message_is_first_line_and_trimmed_not_longer() {
    let text = "x\ny\n\nUnityEngine.Debug:Log(Object)\nDebugHelper()\nA()\n\nq\nUnityEngine.Debug:LogError(Object)\nB()\nC()\n";
    for l in parse_all(text) {
        assert_eq!(l.message, l.callstack.lines().next().unwrap_or(""));
        assert!(l.trimmed_callstack.lines().count() <= l.callstack.lines().count());
        assert!(l.callstack.ends_with(l.trimmed_callstack.as_str()));
    }
}

#[test]
fn lone_helper_frame_leaves_empty_stack() {
    let lines = parse("UnityEngine.Debug:Log\nLog");
    assert_eq!(lines.len(), 1);
    assert_eq!(lines[0].trimmed_callstack, "");
    assert_eq!(lines[0].short(3), "");
    let lines = parse("Msg\nUnityEngine.Debug:Log(Object)\nMyLogger:Info(String)\n");
    assert_eq!(lines.len(), 1);
    assert_eq!(lines[0].trimmed_callstack, "");
    assert_eq!(lines[0].short(3), "");
}
