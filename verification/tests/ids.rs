use lox::ast::expression::ExpressionIdGenerator;

#[test]
fn a_generator_hands_out_zero_one_two_and_so_on() {
    let mut generator = ExpressionIdGenerator::new();
    let ids: Vec<usize> = (0..5).map(|_| generator.next_id().index()).collect();
    assert_eq!(ids, vec![0, 1, 2, 3, 4]);
}
