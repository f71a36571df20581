use compiler::backend::codegen::CodeGenerator;
use compiler::numtext::{i64_to_string, u64_to_string};
use compiler::parser::lexer::tokenizer;
use compiler::parser::Parser;

fn compile(source: &str) -> Result<String, String> {
    let (remaining, tokens) = tokenizer(source);
    if !remaining.is_empty() {
        return Err(format!("lexing halted before: {}", remaining));
    }
    let mut parser = Parser { tokens, current: 0 };
    let ast = parser.parse_tokens()?;
    let mut code_generator = CodeGenerator::new();
    code_generator.generate(&ast)
}

#[test]
fn test_decimal_rendering() {
    assert_eq!(u64_to_string(0), "0");
    assert_eq!(u64_to_string(42), "42");
    assert_eq!(u64_to_string(18446744073709551615), "18446744073709551615");
    assert_eq!(i64_to_string(-5), "-5");
    assert_eq!(i64_to_string(-9223372036854775808), "-9223372036854775808");
    assert_eq!(i64_to_string(2147483647), "2147483647");
}

#[test]
fn test_generate_literal_assignment_and_print() {
    let out = compile("x:i32 = 42; print(x);").unwrap();
    assert!(out.contains("x_res dd 42"));
    let load = out.find("    mov eax, [x_res]\n").unwrap();
    let conv = out.find("call int_to_ascii").unwrap();
    assert!(load < conv);
    assert!(out.contains("mov edx, 12"));
    assert!(out.contains("mov edi, 1"));
}

#[test]
fn test_generate_function_definition_and_call() {
    let out = compile("function add(a:i32,b:i32){ return a+b; }; print(add(2,3));").unwrap();
    assert!(out.contains("add:\n    push rbp\n    mov rbp, rsp\n"));
    assert!(out.contains("    add ebx, ecx\n"));
    assert!(out.contains("    ret\n"));
    let push3 = out.find("    mov eax, 3\n").unwrap();
    let push2 = out.find("    mov eax, 2\n").unwrap();
    assert!(push3 < push2, "arguments must be evaluated in reverse order");
    assert!(out.contains("    call add\n"));
    assert!(out.contains("    add esp, 8\n"));
}

#[test]
fn test_generate_while_loop() {
    let out = compile("x:i32 = 0; while (x < 10) { x = x + 1; };").unwrap();
    assert!(out.contains("start_0:\n"));
    assert!(out.contains("    jge end_1\n"));
    assert!(out.contains("    setl al\n    movzx eax, al\n"));
    assert!(out.contains("    cmp ebx, ecx\n"));
    assert!(out.contains("    jmp start_0\n"));
    assert!(out.contains("end_1:\n"));
    assert!(out.contains("    mov [x_res], eax\n"));
}

#[test]
fn test_generate_if_else() {
    let out = compile("x:i32 = 1; if (x > 0) { print(x); } else { print(0); };").unwrap();
    assert!(out.contains("    test eax, eax\n"));
    assert!(out.contains("    je else_0\n"));
    assert!(out.contains("    jmp endif_1\n"));
    assert!(out.contains("else_0:\n"));
    assert!(out.contains("endif_1:\n"));
}

#[test]
fn test_undefined_variable_is_error() {
    let err = compile("print(y);").unwrap_err();
    assert_eq!(err, "Variable 'y' not defined");
}

#[test]
fn test_untyped_declaration_is_error() {
    let err = compile("y = 5;").unwrap_err();
    assert!(err.contains("No type declaration provided for variable 'y'"));
}

#[test]
fn test_data_section_one_line_per_distinct_variable() {
    let out = compile("x:i32 = 1; y:i64 = 2; x:i32 = 9;").unwrap();
    assert_eq!(out.matches("_res d").count(), 2);
    assert!(out.contains("x_res dd 1"));
    assert!(out.contains("y_res dq 2"));
}

#[test]
fn test_reassignment_keeps_first_nonzero_initializer() {
    let out = compile("x:i32 = 1; x:i32 = 9;").unwrap();
    assert!(out.contains("x_res dd 1"));
    assert!(!out.contains("x_res dd 9"));
}

#[test]
fn test_function_labels_precede_start() {
    let out =
        compile("function f(a:i32){ return a; }; function g(b:i32){ return b; }; print(1);")
            .unwrap();
    let f = out.find("f:\n").unwrap();
    let g = out.find("g:\n").unwrap();
    let start = out.find("_start:\n").unwrap();
    assert!(f < g);
    assert!(g < start);
}

#[test]
fn test_emitted_program_ends_with_exit() {
    let out = compile("print(7);").unwrap();
    assert!(out.ends_with("mov rax, 60\nxor rdi, rdi\nsyscall\n"));
}

#[test]
fn test_control_flow_labels_are_distinct() {
    let out = compile(
        "x:i32 = 0; if (x > 0) { print(x); } else { print(0); }; while (x < 3) { x = x + 1; };",
    )
    .unwrap();
    assert!(out.contains("else_0:"));
    assert!(out.contains("endif_1:"));
    assert!(out.contains("start_2:"));
    assert!(out.contains("end_3:"));
}

#[test]
fn test_print_of_declared_variable_sequence() {
    let out = compile("v:i32 = 7; print(v);").unwrap();
    assert!(out.contains("v_res dd 7"));
    let load = out.find("    mov eax, [v_res]\n").unwrap();
    let tail = out
        .find("    mov eax, eax\n    lea rsi, [rel buffer_0]\n    call int_to_ascii\n")
        .unwrap();
    assert!(load < tail);
}

#[test]
fn test_print_i64_variable_uses_wide_register() {
    let out = compile("w:i64 = 5000000000; print(w);").unwrap();
    assert!(out.contains("w_res dq 5000000000"));
    assert!(out.contains("    mov rax, [w_res]\n"));
}

#[test]
fn test_print_string_literal() {
    let out = compile("print(\"hi\");").unwrap();
    assert!(out.contains(".ascii \"hi\\0\""));
    assert!(out.contains("str_0:"));
    assert!(out.contains("mov edx, 3"));
    assert!(!out.contains("mov edx, 12"));
}

#[test]
fn test_output_structure_prologue() {
    let out = compile("print(1);").unwrap();
    assert!(out.starts_with("extern printf\nsection .bss\nbuffer_0 resb 12\nsection .data\n"));
    assert!(out.contains("section .text\nglobal _start, int_to_ascii\nint_to_ascii:\n"));
}

#[test]
fn test_divide_leaves_quotient_in_accumulator() {
    let out = compile("x:i32 = 8; print(x / 2);").unwrap();
    assert!(out.contains("    xor edx, edx\n    idiv ecx\n"));
    assert!(!out.contains("    idiv ecx\n    mov eax, ebx\n"));
}
