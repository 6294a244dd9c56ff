use dfajit::{JitDfa, TransitionTable};

type TestResult = Result<(), dfajit::Error>;

fn reset_table(state_count: usize) -> TransitionTable {
    let mut table = TransitionTable::new(state_count, 256).unwrap();
    for state in 0..state_count {
        for byte in u8::MIN..=u8::MAX {
            table.set_transition(state, byte, 0);
        }
    }
    table
}

#[test]
fn rejects_empty_dfa() {
    let table = TransitionTable::new(0, 256).unwrap();
    assert!(JitDfa::compile(&table).is_err());
}

#[test]
fn supports_maximum_jit_state_count() -> TestResult {
    let mut table = reset_table(4096);
    table.set_transition(0, b'a', 1);
    table.add_accept(1, 0);
    table.set_pattern_length(0, 1);

    let jit = JitDfa::compile(&table)?;
    assert_eq!(jit.state_count(), 4096);
    assert_eq!(jit.scan_count(b"a"), 1);
    Ok(())
}

#[test]
fn supports_large_interpreted_fallback_state_count() -> TestResult {
    let mut table = reset_table(65_536);
    table.set_transition(0, b'a', 1);
    table.add_accept(1, 0);
    table.set_pattern_length(0, 1);

    let jit = JitDfa::compile(&table)?;
    assert_eq!(jit.state_count(), 65_536);
    assert_eq!(jit.scan_count(b"a"), 1);
    Ok(())
}

#[test]
fn all_same_byte_input_is_stable() -> TestResult {
    let mut table = reset_table(2);
    table.set_transition(0, b'a', 1);
    table.set_transition(1, b'a', 1);
    table.add_accept(1, 0);
    table.set_pattern_length(0, 1);

    let jit = JitDfa::compile(&table)?;
    let input = vec![b'a'; 128 * 1024];
    assert_eq!(jit.scan_count(&input), input.len());
    Ok(())
}

#[test]
fn all_same_byte_input_without_accepts_stays_quiet() -> TestResult {
    let table = reset_table(2);
    let jit = JitDfa::compile(&table)?;
    let input = vec![b'a'; 64 * 1024];
    assert_eq!(jit.scan_count(&input), 0);
    Ok(())
}

#[test]
fn alternating_patterns_match_every_position() -> TestResult {
    let mut table = reset_table(3);
    table.set_transition(0, b'a', 1);
    table.set_transition(0, b'b', 2);
    table.set_transition(1, b'b', 2);
    table.set_transition(2, b'a', 1);
    table.add_accept(1, 0);
    table.add_accept(2, 1);
    table.set_pattern_length(0, 1);
    table.set_pattern_length(1, 1);

    let jit = JitDfa::compile(&table)?;
    assert_eq!(jit.scan_count(b"abababab"), 8);
    Ok(())
}

#[test]
fn nul_bytes_are_treated_as_regular_input() -> TestResult {
    let mut table = reset_table(2);
    table.set_transition(0, 0, 1);
    table.add_accept(1, 0);
    table.set_pattern_length(0, 1);

    let jit = JitDfa::compile(&table)?;
    assert_eq!(jit.scan_count(&[0, 1, 0, 0]), 3);
    Ok(())
}

#[test]
fn all_byte_values_remain_matchable() -> TestResult {
    let mut table = reset_table(2);
    for byte in u8::MIN..=u8::MAX {
        table.set_transition(0, byte, 1);
    }
    table.add_accept(1, 0);
    table.set_pattern_length(0, 1);

    let jit = JitDfa::compile(&table)?;
    let input: Vec<u8> = (u8::MIN..=u8::MAX).collect();
    assert_eq!(jit.scan_count(&input), input.len());
    Ok(())
}

#[test]
fn compute_ranges_merges_consecutive_bytes_with_shared_target() {
    let mut table = reset_table(3);
    for byte in b'a'..=b'f' {
        table.set_transition(0, byte, 1);
    }
    for byte in b'x'..=b'z' {
        table.set_transition(0, byte, 2);
    }

    let ranges = table.compute_ranges();

    assert!(ranges[0].contains(&(b'a', b'f', 1)));
    assert!(ranges[0].contains(&(b'x', b'z', 2)));
}
