use dfajit::dfa::regex::regex_table;
use dfajit::{Error, JitDfa, TransitionTable};
use matchkit::Match;

fn ab_table() -> TransitionTable {
    let mut table = TransitionTable::new(3, 256).unwrap();
    for state in 0..3 {
        table.set_transition(state, b'a', 1);
    }
    table.set_transition(1, b'b', 2);
    table.add_accept(2, 0);
    table.set_pattern_length(0, 2);
    table
}

#[test]
fn literal_matches_are_occurrences() {
    let patterns: [&[u8]; 4] = [b"he", b"she", b"his", b"hers"];
    let jit = JitDfa::from_patterns(&patterns).unwrap();
    let input = b"ushers say his hershey";
    let mut matches = vec![Match::from_parts(0, 0, 0); 32];
    let count = jit.scan(input, &mut matches);
    assert!(count > 0);
    for m in &matches[..count] {
        let pattern = patterns[m.pattern_id as usize];
        assert_eq!(&input[m.start as usize..m.end as usize], pattern);
    }
}

#[test]
fn literal_state_count_is_prefix_count() {
    // prefixes: "", a, ab, ac, b
    let jit = JitDfa::from_patterns(&[b"ab", b"ac", b"b", b"a"]).unwrap();
    assert_eq!(jit.state_count(), 5);
    assert_eq!(jit.pattern_count(), 4);
}

#[test]
fn literal_trie_over_limit_is_refused() {
    let mut seed: u32 = 12345;
    let mut patterns: Vec<Vec<u8>> = Vec::new();
    for _ in 0..300 {
        let mut p = Vec::new();
        for _ in 0..250 {
            seed = seed.wrapping_mul(1_103_515_245).wrapping_add(12345);
            p.push((seed >> 16) as u8);
        }
        patterns.push(p);
    }
    let refs: Vec<&[u8]> = patterns.iter().map(|p| p.as_slice()).collect();
    match JitDfa::from_patterns(&refs) {
        Err(Error::TooManyStates { states, max }) => {
            assert!(states > 65_536);
            assert_eq!(max, 65_536);
        },
        _ => panic!("expected too many states"),
    }
}

#[test]
fn minimized_table_finds_the_same_matches() {
    let mut table = TransitionTable::new(6, 256).unwrap();
    for s in 0..6 {
        table.set_transition(s, b'a', 1);
    }
    table.set_transition(1, b'b', 2);
    table.set_transition(3, b'b', 2);
    table.add_accept(2, 0);
    table.set_pattern_length(0, 2);
    let minimized = table.minimize().unwrap();
    assert!(minimized.state_count() < 6);
    let a = JitDfa::compile(&table).unwrap();
    let b = JitDfa::compile(&minimized).unwrap();
    for input in [&b"ab"[..], b"aab", b"xabab", b"", b"ba", b"abababab"] {
        let mut ma = vec![Match::from_parts(0, 0, 0); 8];
        let mut mb = vec![Match::from_parts(0, 0, 0); 8];
        let ca = a.scan(input, &mut ma);
        let cb = b.scan(input, &mut mb);
        assert_eq!(ca, cb);
        assert_eq!(ma, mb);
    }
}

#[test]
fn bytes_round_trip_keeps_the_table() {
    let mut table = ab_table();
    table.set_pattern_length(3, 9);
    let back = TransitionTable::from_bytes(&table.to_bytes()).unwrap();
    assert_eq!(back.state_count(), 3);
    assert_eq!(back.class_count(), 256);
    assert_eq!(back.transitions(), table.transitions());
    assert_eq!(back.accept_states(), &[(2, 0)]);
    assert_eq!(back.pattern_lengths(), &[2, 0, 0, 9]);
}

#[test]
fn count_agrees_with_scan() {
    let jit = JitDfa::compile(&ab_table()).unwrap();
    let input = b"abxabab";
    let mut big = vec![Match::from_parts(0, 0, 0); 10];
    assert_eq!(jit.scan(input, &mut big), jit.scan_count(input));
    let mut small = vec![Match::from_parts(0, 0, 0); 2];
    assert_eq!(jit.scan(input, &mut small), 2);
    assert_eq!(small[1], Match::from_parts(0, 3, 5));
}

#[test]
fn first_match_and_presence_agree() {
    let jit = JitDfa::compile(&ab_table()).unwrap();
    for input in [&b"zzab"[..], b"zz", b"", b"ba", b"aab"] {
        assert_eq!(jit.has_match(input), jit.scan_first(input).is_some());
    }
    assert_eq!(jit.scan_first(b"zzaab"), Some(Match::from_parts(0, 3, 5)));
}

#[test]
fn regex_table_builds_positions_and_lengths() {
    let keys = vec![10u32, 20];
    let mut next = vec![10u32; 512];
    next[b'a' as usize] = 20;
    let matches = vec![Vec::new(), vec![3u32, 3]];
    let lengths = vec![1u32, 1];
    let table = regex_table(&keys, &next, &matches, &lengths).unwrap();
    assert_eq!(table.state_count(), 2);
    assert_eq!(table.transitions()[b'a' as usize], 1);
    assert_eq!(table.transitions()[b'b' as usize], 0);
    assert_eq!(table.transitions()[256 + b'a' as usize], 0);
    assert_eq!(table.accept_states(), &[(1, 3)]);
    assert_eq!(table.pattern_lengths(), &[1, 1, 0, 0]);
}

#[test]
fn regex_table_reports_unknown_state() {
    let keys = vec![10u32];
    let mut next = vec![10u32; 256];
    next[7] = 99;
    let err = regex_table(&keys, &next, &vec![Vec::new()], &Vec::new()).unwrap_err();
    assert_eq!(
        err.to_string(),
        "invalid transition table: regex DFA transition to undiscovered state on byte 7. Fix: ensure transitions.len() == state_count * class_count. Validate your TransitionTable inputs carefully."
    );
}

#[test]
fn regex_matches_place_literal_starts() {
    let jit = JitDfa::from_regex_patterns(&["abc"]).unwrap();
    let mut matches = vec![Match::from_parts(0, 0, 0); 4];
    assert_eq!(jit.scan(b"xxabcx", &mut matches), 1);
    assert_eq!(matches[0], Match::from_parts(0, 2, 5));
}

#[test]
fn regex_build_error_is_reported() {
    match JitDfa::from_regex_patterns(&["(unclosed"]) {
        Err(Error::InvalidTable { reason }) => {
            assert!(reason.starts_with("failed to compile regex patterns with regex-automata: "));
        },
        _ => panic!("expected an invalid table error"),
    }
}

#[test]
fn error_messages_name_the_numbers() {
    let e = Error::InputTooLong { len: 5_000_000_000, max: 4_294_967_295 };
    assert_eq!(
        e.to_string(),
        "input length 5000000000 bytes exceeds JIT limit of 4294967295 bytes (32-bit scan index). Fix: scan in chunks of at most 4294967295 bytes and adjust match offsets, or use a non-JIT build where the interpreted path uses `usize` positions."
    );
    let e = Error::MemoryAllocation { reason: String::from("mmap failed") };
    assert_eq!(
        e.to_string(),
        "failed to allocate executable memory: mmap failed. Fix: check OS memory limits and mmap permissions."
    );
    let e = Error::TooManyStates { states: 70_000, max: 65_536 };
    assert_eq!(
        e.to_string(),
        "DFA has 70000 states, exceeding the 65536-state JIT limit. Fix: use the interpreted fallback for large DFAs."
    );
}

#[test]
fn table_with_two_patterns_on_one_state_is_refused() {
    let mut table = ab_table();
    table.add_accept(2, 1);
    table.set_pattern_length(1, 1);
    match JitDfa::compile(&table) {
        Err(e) => assert_eq!(
            e.to_string(),
            "invalid transition table: state 2 has multiple accept patterns, which is not supported. Fix: ensure transitions.len() == state_count * class_count. Validate your TransitionTable inputs carefully."
        ),
        Ok(_) => panic!("expected an error"),
    }
}

#[test]
fn large_tables_scan_without_an_image() {
    let mut table = TransitionTable::new(5000, 256).unwrap();
    table.set_transition(0, b'q', 4999);
    table.add_accept(4999, 0);
    table.set_pattern_length(0, 1);
    let jit = JitDfa::compile(&table).unwrap();
    assert!(!jit.buffer().is_jit());
    assert_eq!(jit.buffer().image(), &[0xC3]);
    assert_eq!(jit.scan_count(b"qxq"), 2);
}

#[test]
fn small_tables_carry_an_image() {
    let jit = JitDfa::compile(&ab_table()).unwrap();
    let buffer = jit.buffer();
    assert!(buffer.is_jit());
    let layout = buffer.layout();
    // the flagged transition table: entry 'b' of state 1 goes to accepting state 2
    let at = layout.trans_offset + 4 * (256 + b'b' as usize);
    let word = u32::from_le_bytes([buffer.image()[at], buffer.image()[at + 1], buffer.image()[at + 2], buffer.image()[at + 3]]);
    assert_eq!(word, 0x8000_0002);
}

#[test]
fn literal_pattern_scanned_alone_is_found() {
    let patterns: [&[u8]; 4] = [b"needle", b"dle", b"hay", b"needle"];
    let jit = JitDfa::from_patterns(&patterns).unwrap();
    let mut matches = vec![Match::from_parts(0, 0, 0); 4];
    let count = jit.scan(b"needle", &mut matches);
    // "dle" ends the input too, through the output link of "needle"
    assert_eq!(count, 2);
    assert_eq!(matches[0], Match::from_parts(0, 0, 6));
    assert_eq!(matches[1], Match::from_parts(1, 3, 6));
    assert_eq!(jit.scan(b"hay", &mut matches), 1);
    assert_eq!(matches[0], Match::from_parts(2, 0, 3));
}

#[test]
fn crate_example_counts_two_matches() {
    let mut table = TransitionTable::new(3, 256).unwrap();
    table.set_transition(0, b'a', 1);
    table.set_transition(1, b'b', 2);
    table.add_accept(2, 0);
    let jit = JitDfa::compile(&table).unwrap();
    let mut matches = vec![Match::from_parts(0, 0, 0); 10];
    assert_eq!(jit.scan(b"xabxab", &mut matches), 2);
    // no length was set for pattern 0: matches are empty spans at their ends
    assert_eq!(matches[0], Match::from_parts(0, 3, 3));
}

#[test]
fn minimize_drops_unreachable_states() {
    // state 2 accepts but nothing leads to it: one state is enough
    let mut table = TransitionTable::new(3, 256).unwrap();
    table.add_accept(2, 0);
    let minimized = table.minimize().unwrap();
    assert_eq!(minimized.state_count(), 1);
    assert!(minimized.accept_states().is_empty());
    let jit = JitDfa::compile(&minimized).unwrap();
    assert_eq!(jit.scan_count(b"abc"), 0);
}

#[test]
fn minimize_keeps_reachable_accepting_state() {
    // 0 -a-> 1 (accepting); 2 unreachable and equal to 0
    let mut table = TransitionTable::new(3, 256).unwrap();
    table.set_transition(0, b'a', 1);
    table.set_transition(2, b'a', 1);
    table.add_accept(1, 0);
    table.set_pattern_length(0, 1);
    let minimized = table.minimize().unwrap();
    assert_eq!(minimized.state_count(), 2);
    let jit = JitDfa::compile(&minimized).unwrap();
    assert_eq!(jit.scan_count(b"aba"), 2);
}

#[test]
fn minimize_twice_changes_nothing_more() {
    let mut table = TransitionTable::new(5, 256).unwrap();
    table.set_transition(0, b'x', 3);
    table.set_transition(1, b'x', 3);
    table.set_transition(2, b'x', 4);
    table.add_accept(3, 0);
    table.add_accept(4, 0);
    table.set_pattern_length(0, 1);
    let once = table.minimize().unwrap();
    assert_eq!(once.state_count(), 2);
    assert!(once.minimize().is_none());
}

#[test]
fn literal_mismatch_follows_the_failure_link() {
    // after "f", another 'f' keeps the prefix "f" instead of going back to the root
    let jit = JitDfa::from_patterns(&[b"foo"]).unwrap();
    let mut matches = vec![Match::from_parts(0, 0, 0); 4];
    assert_eq!(jit.scan(b"ffoo", &mut matches), 1);
    assert_eq!(matches[0], Match::from_parts(0, 1, 4));
    assert_eq!(jit.scan(b"fofoo", &mut matches), 1);
    assert_eq!(matches[0], Match::from_parts(0, 2, 5));
}

#[test]
fn literal_duplicate_patterns_report_the_first() {
    let jit = JitDfa::from_patterns(&[b"ab", b"b", b"ab"]).unwrap();
    // prefixes: "", a, ab, b
    assert_eq!(jit.state_count(), 4);
    let mut matches = vec![Match::from_parts(0, 0, 0); 4];
    let count = jit.scan(b"ab", &mut matches);
    assert_eq!(count, 2);
    assert_eq!(matches[0], Match::from_parts(0, 0, 2));
    assert_eq!(matches[1], Match::from_parts(1, 1, 2));
}

#[test]
fn every_truncation_of_the_bytes_is_refused() {
    let table = ab_table();
    let bytes = table.to_bytes();
    assert!(TransitionTable::from_bytes(&bytes).is_ok());
    for k in 0..bytes.len() {
        assert!(TransitionTable::from_bytes(&bytes[..k]).is_err());
    }
}

#[test]
fn minimize_of_the_empty_table_is_none() {
    let table = TransitionTable::from_parts(0, 0, Vec::new(), Vec::new(), Vec::new()).unwrap();
    assert!(table.minimize().is_none());
}

#[test]
fn minimize_ignores_an_accept_entry_beyond_the_states() {
    // already minimal, with a stray entry naming no state
    let mut table = ab_table();
    table.accept_states_mut().push((7, 0));
    assert!(table.minimize().is_none());
    // reducible, with a stray entry naming no state
    let mut table = TransitionTable::new(3, 256).unwrap();
    table.add_accept(1, 0);
    table.accept_states_mut().push((9, 0));
    let minimized = table.minimize().unwrap();
    assert_eq!(minimized.state_count(), 1);
    assert!(minimized.accept_states().is_empty());
}

