use furnace::ast::Statement;
use furnace::parser::parse_program;

#[test]
fn cloned_program_is_identical() {
    let code = "
        Int Add(Int A, Int B) { Return A + B; }
        Open Int Main() {
            Int X = Add(1, 2);
            If (X > 2) { Print(\"big {X}\"); } Else If (X < 0) { Stop; } Else { X = -X; }
            While (X > 0) { X = X - 1; }
            For (Int I = 0; I < 3; I++) { Print(I); }
            Return X;
        }
    ";
    let program = parse_program(code).unwrap();
    let copy = program.clone();
    assert_eq!(format!("{:?}", program), format!("{:?}", copy));
    for stmt in &program.statements {
        if let Statement::FunctionDecl(f) = stmt {
            let g = f.clone();
            assert_eq!(format!("{:?}", f), format!("{:?}", g));
        }
    }
}
