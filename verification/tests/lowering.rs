use furnace::ir::IrTerminator;
use furnace::lowering::lower;
use furnace::parser::parse_program;

fn jump_targets(t: &IrTerminator) -> Vec<String> {
    match t {
        IrTerminator::Ret(_) => vec![],
        IrTerminator::Jump(l) => vec![l.clone()],
        IrTerminator::Branch { true_label, false_label, .. } => {
            vec![true_label.clone(), false_label.clone()]
        }
    }
}

#[test]
fn every_lowered_jump_names_a_block() {
    let code = "
        Open Int Main() {
            Int Total = 0;
            For (Int I = 0; I < 5; I++) {
                If (I == 2) {
                    Skip;
                } Else If (I == 4) {
                    Stop;
                } Else {
                    Total = Total + I;
                }
            }
            While (Total > 0) {
                Total = Total - 1;
                If (Total == 1) {
                    Stop;
                }
            }
            Return Total;
        }
    ";
    let program = parse_program(code).unwrap();
    let ir = lower(&program).unwrap();
    assert_eq!(ir.functions.len(), 1);
    let f = &ir.functions[0];
    assert_eq!(f.name, "Main");
    let labels: Vec<&String> = f.blocks.iter().map(|b| &b.label).collect();
    let mut jumps = 0;
    for block in &f.blocks {
        for target in jump_targets(&block.terminator) {
            jumps += 1;
            assert!(labels.contains(&&target), "jump to missing block {}", target);
        }
    }
    assert!(jumps > 5);
}

#[test]
fn lowering_refuses_a_program_without_main() {
    let program = parse_program("Open Int Helper() { Return 1; }").unwrap();
    let err = lower(&program).unwrap_err();
    assert_eq!(err.message, "No Main function found");
}

#[test]
fn unsupported_expression_is_named_in_the_diagnostic() {
    let program = parse_program("Open Int Main() { Int X = 1; Return X.Y; }").unwrap();
    let err = lower(&program).unwrap_err();
    assert_eq!(
        err.message,
        "Expression MemberAccess { object: Identifier(\"X\"), member: \"Y\" } is not supported in native backend"
    );
}

#[test]
fn binary_operations_lower_to_their_ir_operation() {
    let program = parse_program("Open Int Main() { Int A = 6; Int B = 7; Return A * B; }").unwrap();
    let ir = lower(&program).unwrap();
    let main = &ir.functions[0];
    let has_mul = main.blocks.iter().any(|b| {
        b.insts.iter().any(|i| matches!(i, furnace::ir::IrInst::BinOp { op: furnace::ir::IrBinOp::Mul, .. }))
    });
    assert!(has_mul);
}

#[test]
fn straight_line_program_lowers() {
    let program = parse_program(
        "Int Add(Int A, Int B) { Return A + B; } Open Int Main() { Int X = Add(1, 2); Print(X); X = X * 2; Return X; }",
    )
    .unwrap();
    let ir = lower(&program).unwrap();
    assert_eq!(ir.functions.len(), 2);
    assert_eq!(ir.functions[1].name, "Main");
}

#[test]
fn a_leading_function_with_seven_parameters_is_named_in_the_diagnostic() {
    let program = parse_program(
        "Int TooMany(Int A, Int B, Int C, Int D, Int E, Int F, Int G) { Return A; } \
         Open Int Main() { Return TooMany(1,2,3,4,5,6,7); }",
    )
    .unwrap();
    let e = lower(&program).unwrap_err();
    assert_eq!(
        e.message,
        "Function 'TooMany' has 7 parameters. Native backend supports at most 6 integer parameters."
    );
}

#[test]
fn no_input_instruction_in_a_straight_line_program() {
    let program = parse_program("Int Twice(Int A) { Return A + A; } Open Int Main() { Return Twice(21); }").unwrap();
    let ir = lower(&program).unwrap();
    for f in ir.functions.iter() {
        for b in f.blocks.iter() {
            for inst in b.insts.iter() {
                assert!(!matches!(inst, furnace::ir::IrInst::Input { .. }));
            }
        }
    }
}
