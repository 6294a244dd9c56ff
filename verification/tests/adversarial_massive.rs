use dfajit::{JitDfa, Match};

use dfajit::table::TransitionTable;

#[test]
fn test_massive_table_limits() {
    // Note: the code states 4096 is the limit.
    // Ensure that it handles something very close to the limit without failing compilation.
    let mut table = TransitionTable::new(4090, 256).unwrap();
    table.set_transition(0, b'A', 1);
    table.add_accept(1, 0);
    table.set_pattern_length(0, 1);
    let dfa = JitDfa::compile(&table).unwrap();
    let mut matches = vec![Match::from_parts(0, 0, 0); 10];
    let count = dfa.scan(b"A", &mut matches);
    assert_eq!(count, 1);
}
