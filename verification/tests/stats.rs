use llguidance_ctrl::earley::parser::ParserStats;

#[test]
fn delta_subtracts_each_counter() {
    let before = ParserStats { rows: 1, definitive_bytes: 2, lexer_ops: 3, all_items: 4, hidden_bytes: 5 };
    let after = ParserStats { rows: 11, definitive_bytes: 22, lexer_ops: 33, all_items: 44, hidden_bytes: 55 };
    let d = after.delta(&before);
    assert_eq!(d.rows, 10);
    assert_eq!(d.definitive_bytes, 20);
    assert_eq!(d.lexer_ops, 30);
    assert_eq!(d.all_items, 40);
    assert_eq!(d.hidden_bytes, 50);
}
