use flashvault::clock::millis_or_zero;
use flashvault::demo::demo_report;
use flashvault::repl::{parse_repl_tokens, parse_u64_decimal, repl_step, ReplCommand, ReplReply};
use flashvault::{Cache, Stats, TestClock};

fn toks(line: &str) -> Vec<String> {
    line.split_whitespace().map(|t| t.to_string()).collect()
}

fn cmd(line: &str) -> ReplCommand {
    parse_repl_tokens(&toks(line))
}

#[test]
fn repl_grammar_reads_every_command() {
    assert!(matches!(cmd(""), ReplCommand::Blank));
    assert!(matches!(cmd("quit"), ReplCommand::Quit));
    assert!(matches!(cmd("exit"), ReplCommand::Quit));
    assert!(matches!(cmd("quit now"), ReplCommand::Unrecognized));
    match cmd("set k v") {
        ReplCommand::Store(k, v, None) => assert_eq!((k.as_str(), v.as_str()), ("k", "v")),
        _ => panic!("expected a store without ttl"),
    }
    match cmd("set k v 250") {
        ReplCommand::Store(k, v, Some(250)) => assert_eq!((k.as_str(), v.as_str()), ("k", "v")),
        _ => panic!("expected a store with ttl"),
    }
    assert!(matches!(cmd("set k v soon"), ReplCommand::BadTtl));
    assert!(matches!(cmd("set k v -1"), ReplCommand::BadTtl));
    assert!(matches!(cmd("set k"), ReplCommand::Unrecognized));
    assert!(matches!(cmd("set k v 1 2"), ReplCommand::Unrecognized));
    match cmd("get k") {
        ReplCommand::Get(k) => assert_eq!(k, "k"),
        _ => panic!("expected a get"),
    }
    match cmd("del k") {
        ReplCommand::Del(k) => assert_eq!(k, "k"),
        _ => panic!("expected a del"),
    }
    assert!(matches!(cmd("keys"), ReplCommand::Keys));
    assert!(matches!(cmd("stats"), ReplCommand::Stats));
    assert!(matches!(cmd("get"), ReplCommand::Unrecognized));
    assert!(matches!(cmd("SET k v"), ReplCommand::Unrecognized));
    assert!(matches!(cmd("frobnicate"), ReplCommand::Unrecognized));
}

#[test]
fn ttl_parsing_agrees_with_std() {
    let samples = [
        "0", "7", "+7", "007", "1000", "18446744073709551615", "18446744073709551616",
        "99999999999999999999", "", "+", "-", "-0", "12a", "a12", "1_000", "+-1", "٣",
        "00000000000000000000000018446744073709551615",
    ];
    for s in samples {
        assert_eq!(parse_u64_decimal(&s.to_string()), s.parse::<u64>().ok(), "input {s:?}");
    }
}

#[test]
fn repl_step_answers_and_changes_the_cache() {
    let mut c: Cache<String, TestClock> = Cache::new(2, TestClock::new(0));
    assert!(matches!(repl_step(&mut c, cmd("")), ReplReply::Silent));
    assert!(matches!(repl_step(&mut c, cmd("quit")), ReplReply::Stop));
    assert!(matches!(repl_step(&mut c, cmd("set a 1")), ReplReply::Done));
    assert!(matches!(repl_step(&mut c, cmd("set b 2 5")), ReplReply::Done));
    assert!(matches!(repl_step(&mut c, cmd("set b 2 x")), ReplReply::BadTtl));
    match repl_step(&mut c, cmd("get a")) {
        ReplReply::Value(v) => assert_eq!(v, "1"),
        _ => panic!("expected a value"),
    }
    assert!(matches!(repl_step(&mut c, cmd("get zz")), ReplReply::Miss));
    match repl_step(&mut c, cmd("keys")) {
        ReplReply::Keys(ks) => assert_eq!(ks, vec!["a".to_string(), "b".to_string()]),
        _ => panic!("expected keys"),
    }
    assert!(matches!(repl_step(&mut c, cmd("del b")), ReplReply::Done));
    assert!(matches!(repl_step(&mut c, cmd("del b")), ReplReply::NotFound));
    match repl_step(&mut c, cmd("stats")) {
        ReplReply::Stats(s) => {
            assert_eq!(s, Stats { hits: 1, misses: 1, evictions: 0, expirations: 0, size: 1 })
        }
        _ => panic!("expected stats"),
    }
    assert!(matches!(repl_step(&mut c, cmd("hello")), ReplReply::Unrecognized));
    assert_eq!(c.len(), 1);
}

#[test]
fn repl_set_with_ttl_expires() {
    let mut c: Cache<String, TestClock> = Cache::new(2, TestClock::new(100));
    assert!(matches!(repl_step(&mut c, cmd("set a 1 10")), ReplReply::Done));
    assert_eq!(c.get_at("a", 109), Some("1".to_string()));
    assert_eq!(c.get_at("a", 110), None);
}

#[test]
fn demo_when_the_short_lived_key_has_expired() {
    let r = demo_report(3, 1_000, 1_005);
    assert_eq!(r.filled, 3);
    assert_eq!(r.touched, Some("value0".to_string()));
    assert_eq!(r.size_after_overflow, 3);
    assert_eq!(r.capacity, 3);
    assert!(r.short_lived_expired);
    assert_eq!(r.stats, Stats { hits: 1, misses: 1, evictions: 2, expirations: 1, size: 2 });
}

#[test]
fn demo_when_the_short_lived_key_is_still_there() {
    let r = demo_report(1, 1_000, 1_000);
    assert_eq!(r.filled, 1);
    assert_eq!(r.touched, Some("value0".to_string()));
    assert_eq!(r.size_after_overflow, 1);
    assert!(!r.short_lived_expired);
    assert_eq!(r.stats, Stats { hits: 2, misses: 0, evictions: 2, expirations: 0, size: 1 });
}

#[test]
fn demo_with_a_larger_cache() {
    let r = demo_report(128, 5, u64::MAX);
    assert_eq!(r.filled, 128);
    assert_eq!(r.touched, Some("value0".to_string()));
    assert!(r.short_lived_expired);
    assert_eq!(r.stats.size, 127);
}

#[test]
fn wall_clock_reading_from_millis() {
    assert_eq!(millis_or_zero(None), 0);
    assert_eq!(millis_or_zero(Some(1_700_000_000_123)), 1_700_000_000_123);
    assert_eq!(millis_or_zero(Some(u64::MAX as u128 + 5)), 4);
}

#[test]
fn counter_room_checks() {
    let mut c: Cache<String, TestClock> = Cache::new(1, TestClock::new(0));
    assert!(c.put_has_room_for("a"));
    assert!(c.get_has_room_for("a"));
    c.put("a".into(), "1".into(), Some(5));
    assert!(c.put_has_room_for("a"));
    assert!(c.put_has_room_for("b"));
    assert!(c.get_has_room_for("a"));
}

#[test]
fn fill_after_clear_holds_the_last_keys_without_evicting() {
    let mut c: Cache<String, TestClock> = Cache::new(3, TestClock::new(0));
    for i in 0..7u32 {
        c.put(format!("x{i}"), format!("{i}"), None);
    }
    let before = c.stats();
    c.clear();
    for k in ["p", "q", "r"] {
        c.put(k.to_string(), "v".to_string(), Some(10));
    }
    assert_eq!(c.len(), c.capacity());
    assert_eq!(c.stats().evictions, before.evictions);
    assert_eq!(c.keys_by_recency(), vec!["r".to_string(), "q".to_string(), "p".to_string()]);
}

#[test]
fn capacity_never_changes() {
    let mut c: Cache<String, TestClock> = Cache::new(2, TestClock::new(0));
    c.put("a".into(), "1".into(), None);
    c.get("a");
    c.remove("a");
    c.clear();
    c.put("b".into(), "2".into(), None);
    c.put("c".into(), "3".into(), None);
    c.put("d".into(), "4".into(), None);
    assert_eq!(c.capacity(), 2);
}

#[test]
fn put_then_remove_of_a_fresh_key_restores_keys_and_stats() {
    let mut c: Cache<String, TestClock> = Cache::new(3, TestClock::new(0));
    c.put("a".into(), "1".into(), None);
    c.put("b".into(), "2".into(), None);
    let keys = c.keys_by_recency();
    let stats = c.stats();
    c.put("n".into(), "x".into(), Some(3));
    assert!(c.remove("n"));
    assert_eq!(c.keys_by_recency(), keys);
    assert_eq!(c.stats(), stats);
}
