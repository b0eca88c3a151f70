use arith::ast::ArithmeticExpression;

#[test]
fn test_add_expression() {
    let add_expr = ArithmeticExpression::Add(
        Box::new(ArithmeticExpression::Value(1)),
        Box::new(ArithmeticExpression::Add(
            Box::new(ArithmeticExpression::Value(2)),
            Box::new(ArithmeticExpression::Value(3)),
        )),
    );

    println!("{:?}", add_expr);
}

#[test]
fn test_add_and_subexpression() {
    let add_sub_expr = ArithmeticExpression::Add(
        Box::new(ArithmeticExpression::Value(1)),
        Box::new(ArithmeticExpression::Sub(
            Box::new(ArithmeticExpression::Value(2)),
            Box::new(ArithmeticExpression::Value(3)),
        )),
    );

    println!("add_sub_expr = {:?}", add_sub_expr);

    let sub_add_expr = ArithmeticExpression::Sub(
        Box::new(ArithmeticExpression::Add(
            Box::new(ArithmeticExpression::Value(1)),
            Box::new(ArithmeticExpression::Value(2)),
        )),
        Box::new(ArithmeticExpression::Value(3)),
    );

    println!("sub_add_expr = {:?}", sub_add_expr);
}
