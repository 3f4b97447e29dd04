//! Type-checking diagnostics and checked-program shapes.

use snacc_compiler::ast::ParamMode;
use snacc_compiler::checker::{
    check, Error, Failure, PlaceRoot, Program, TArg, TCondition, TExpr, TExtern, TFunc, TReceiver, TStmt,
};
use snacc_compiler::collect::collect;
use snacc_compiler::parse;
use snacc_compiler::types::{Ty, TypeDef};

fn errors(source: &str) -> Vec<Error> {
    let syntax = parse(source).unwrap_or_else(|d| panic!("{source} should parse: {d:?}"));
    match check(&syntax) {
        Err(Failure::Source(errors)) => errors,
        Err(Failure::Unknown(detail)) => panic!("unexpected compiler bug: {detail}"),
        Ok(_) => panic!("expected a type error for: {source}"),
    }
}

fn assert_checks(source: &str) -> Program {
    let syntax = parse(source).unwrap_or_else(|d| panic!("{source} should parse: {d:?}"));
    match check(&syntax) {
        Ok(program) => program,
        Err(Failure::Source(errors)) => panic!("{source} should check: {errors:?}"),
        Err(Failure::Unknown(detail)) => panic!("{source} should check: {detail}"),
    }
}

fn assert_error_contains(source: &str, needle: &str) {
    let errors = errors(source);
    assert!(
        errors.iter().any(|error| error.msg.contains(needle)),
        "expected an error containing {needle:?} for {source}, got: {errors:?}"
    );
}

fn assert_rejected_by_parser(source: &str) {
    assert!(parse(source).is_err(), "expected a parse error for: {source}");
}

fn func<'a>(program: &'a Program, name: &str) -> &'a TFunc {
    program.funcs.iter().find(|f| f.name == name).unwrap_or_else(|| panic!("no function {name}"))
}

fn ext<'a>(program: &'a Program, name: &str) -> &'a TExtern {
    program.externs.iter().find(|f| f.name == name).unwrap_or_else(|| panic!("no bridge {name}"))
}
#[test]
fn checks_typed_rust_bridge_calls() {
    let program = assert_checks(
        "extern rust \"snacc_user_double\" fun rust_double(value: Int64): Int64\nprint(rust_double(2))",
    );
    assert_eq!(ext(&program, "rust_double").symbol, "snacc_user_double");
    assert_eq!(ext(&program, "rust_double").result, Some(Ty::Int64));
}

#[test]
fn checked_externs_carry_their_declaration_span() {
    let source = "extern rust \"snacc_user_double\" fun rust_double(value: Int64): Int64\nprint(rust_double(2))";
    let program = assert_checks(source);
    let span = &ext(&program, "rust_double").span;
    assert_eq!(span.start, 0);
    assert!(span.end > span.start && span.end <= source.find('\n').unwrap());
}

#[test]
fn rejects_bridge_symbols_that_are_not_rust_identifiers() {
    assert_error_contains(
        "extern rust \"snacc_user_bad-name\" fun bad(): Int64\nprint(0)",
        "valid Rust identifiers",
    );
}

#[test]
fn accepts_bridge_symbols_with_digits_and_underscores() {
    assert_checks("extern rust \"snacc_user_v2_ok\" fun ok(): Int64\nprint(0)");
}

#[test]
fn rejects_duplicate_function_parameter_names() {
    let source = "fun f(a: Int64, a: Int64): Int64 do a end";
    let second_a = source.find(", a: Int64)").map(|i| i + 2).unwrap();
    let errors = errors(source);
    let error = errors
        .iter()
        .find(|error| error.msg.contains("Parameter 'a' already exists"))
        .unwrap_or_else(|| {
            panic!("expected a duplicate-parameter diagnostic, got: {errors:?}")
        });
    assert_eq!(
        error.span.start, second_a,
        "diagnostic should span the second 'a'"
    );
    assert_eq!(error.span.end, second_a + 1);
}

#[test]
fn accepts_functions_with_distinct_parameter_names() {
    assert_checks("fun f(a: Int64, b: Int64): Int64 do a + b end");
}

#[test]
fn checks_functions_and_bridges_with_and_without_results() {
    let program = assert_checks(
        "extern rust \"snacc_user_log\" fun log(value: Int64)\n\
         extern rust \"snacc_user_double\" fun rust_double(value: Int64): Int64\n\
         fun announce(value: Int64) do print(value) end\n\
         fun double(value: Int64): Int64 do value * 2 end\n\
         announce(1)\n\
         log(2)\n\
         print(double(3))\n\
         print(rust_double(4))",
    );
    assert_eq!(func(&program, "announce").result, None);
    assert_eq!(func(&program, "double").result, Some(Ty::Int64));
    assert_eq!(ext(&program, "log").result, None);
    assert_eq!(ext(&program, "rust_double").result, Some(Ty::Int64));
}

#[test]
fn accepts_a_no_result_call_as_a_block_element() {
    let program = assert_checks("fun announce(value: Int64) do print(value) end\nannounce(1)");
    assert!(matches!(program.body.statements[0], TStmt::Call(_, _)));
    assert!(program.body.result.is_none());
}

#[test]
fn rejects_a_no_result_call_in_every_expression_position() {
    let declaration = "fun announce(value: Int64) do print(value) end\n";
    for use_site in [
        "print(announce(1))",
        "let value: Int64 = announce(1)",
        "print(1 + announce(1))",
        "fun wrap(): Int64 do announce(1) end",
        "if announce(1) then print(0) end",
    ] {
        assert_error_contains(
            &format!("{declaration}{use_site}"),
            "declares no result, so its call cannot be used as a value",
        );
    }
}

#[test]
fn rejects_a_value_required_body_ending_in_a_statement() {
    for body in ["let value: Int64 = 1", "while false do print(1) end"] {
        assert_error_contains(
            &format!("fun f(): Int64 do {body} end"),
            "must end in an expression of type 'Int64'",
        );
    }
}

#[test]
fn rejects_a_value_required_body_ending_in_an_assignment() {
    assert_error_contains(
        "fun f(): Int64 do let mut x: Int64 = 1 x = 2 end",
        "must end in an expression of type 'Int64'",
    );
}

#[test]
fn accepts_a_value_required_body_with_a_leading_statement() {
    assert_checks("fun f(value: Int64): Int64 do let result: Int64 = value * value result end");
}

#[test]
fn accepts_a_statement_loop_followed_by_an_explicit_value() {
    assert_checks(
        "fun zero_after_loop(value: Int64): Int64 do while false do print(value) end 0 end",
    );
}

#[test]
fn rejects_break_outside_a_loop() {
    assert_error_contains("break", "only valid inside a 'while' body");
    assert_error_contains(
        "fun f() do if true then break end end",
        "only valid inside a 'while' body",
    );
}

#[test]
fn accepts_break_inside_a_nested_loop_body() {
    assert_checks("while true do while true do break end break end");
}

#[test]
fn a_loop_target_does_not_outlive_its_body() {
    assert_error_contains(
        "while true do print(1) end break",
        "only valid inside a 'while' body",
    );
}

#[test]
fn statement_form_if_accepts_an_omitted_else() {
    let program = assert_checks("if true then print(1) end");
    assert!(matches!(program.body.statements[0], TStmt::If(_)));
}

#[test]
fn value_form_if_requires_an_else() {
    assert_error_contains(
        "fun f(): Int64 do if true then 1 end end",
        "requires an 'else' branch",
    );
}

#[test]
fn value_form_if_checks_every_branch_against_the_required_type() {
    assert_checks("fun f(c: Bool): Int64 do if c then 1 elseif c then 2 else 3 end end");
    assert_error_contains(
        "fun f(c: Bool): Int64 do if c then 1 else true end end",
        "expected 'Int64', found 'Bool'",
    );
}

#[test]
fn value_form_if_rejects_a_branch_that_ends_in_a_statement() {
    assert_error_contains(
        "fun f(c: Bool): Int64 do if c then print(1) else while false do print(2) end end end",
        "must end in an expression of type 'Int64'",
    );
}

#[test]
fn rejects_a_non_bool_condition() {
    assert_error_contains("while 1 do print(1) end", "expected 'Bool', found 'Int64'");
    assert_error_contains("if 1 then print(1) end", "expected 'Bool', found 'Int64'");
}

#[test]
fn rejects_a_duplicate_local_declaration() {
    assert_error_contains(
        "let x: Int64 = 10\nlet x: Int64 = 20",
        "Variable 'x' already exists",
    );
}

#[test]
fn rejects_a_duplicate_local_declared_in_a_nested_branch() {
    assert_error_contains(
        "fun f(ready: Bool) do let value: Int64 = 1 if ready then let value: Int64 = 2 print(value) end end",
        "Variable 'value' already exists",
    );
}

#[test]
fn rejects_a_local_that_shadows_a_parameter() {
    assert_error_contains(
        "fun f(value: Int64): Int64 do let value: Int64 = 1 value end",
        "Variable 'value' already exists",
    );
}

#[test]
fn accepts_the_same_local_name_in_different_functions() {
    assert_checks(
        "fun f(): Int64 do let value: Int64 = 1 value end\n\
         fun g(): Int64 do let value: Int64 = 2 value end",
    );
}

#[test]
fn an_initializer_cannot_refer_to_the_variable_being_declared() {
    assert_error_contains("let count: Int64 = count + 1", "No such variable 'count'");
}

#[test]
fn rejects_assignment_to_an_immutable_root() {
    assert_error_contains(
        "let count: Int64 = 1\ncount = 2",
        "'count' is not declared 'mut' and cannot be assigned",
    );
}

#[test]
fn accepts_assignment_to_a_mutable_root() {
    let program = assert_checks("let mut count: Int64 = 1\ncount = count + 1\nprint(count)");
    assert!(matches!(
        program.body.statements[0],
        TStmt::Let { mutable: true, .. }
    ));
    assert!(matches!(program.body.statements[1], TStmt::Assign { .. }));
}

#[test]
fn rejects_an_assignment_type_mismatch() {
    assert_error_contains(
        "let mut count: Int64 = 1\ncount = true",
        "expected 'Int64', found 'Bool'",
    );
}

#[test]
fn rejects_assignment_to_an_undeclared_name() {
    assert_error_contains("missing = 1", "No such variable 'missing' in scope");
}

#[test]
fn a_declaration_does_not_escape_its_block() {
    assert_error_contains(
        "if true then let inner: Int64 = 1 print(inner) end\nprint(inner)",
        "No such variable 'inner' in scope",
    );
}

#[test]
fn an_empty_value_required_body_is_rejected() {
    assert_error_contains("fun f(): Int64 do end", "but it is empty");
}

#[test]
fn a_no_result_function_body_may_be_empty() {
    assert_checks("fun nothing() do end");
}

const NEW_TYPES: [(&str, &str); 5] = [
    ("UInt8", "1u8"),
    ("UInt16", "1u16"),
    ("UInt32", "1u32"),
    ("UInt64", "1u64"),
    ("Float32", "1.5f32"),
];

#[test]
fn accepts_every_new_type_in_every_declaration_position() {
    for (name, literal) in NEW_TYPES {
        let program = assert_checks(&format!(
            "extern rust \"snacc_user_edge\" fun edge(value: {name}): {name}\n\
             fun identity(value: {name}): {name} do value end\n\
             let bound: {name} = {literal}\n\
             print(identity(bound))"
        ));
        let expected = func(&program, "identity").result;
        assert!(expected.is_some());
        assert_eq!(func(&program, "identity").params[0].ty, expected.unwrap());
        assert_eq!(ext(&program, "edge").result, expected);
    }
}

#[test]
fn rejects_every_implicit_conversion_the_new_types_prohibit() {
    for (source, needle) in [
        ("let byte: UInt8 = 1", "expected 'UInt8', found 'Int64'"),
        ("let byte: UInt8 = 1u16", "expected 'UInt8', found 'UInt16'"),
        (
            "let wide: UInt64 = 1u32",
            "expected 'UInt64', found 'UInt32'",
        ),
        (
            "let count: Int64 = 1u64",
            "expected 'Int64', found 'UInt64'",
        ),
        (
            "let ratio: Float32 = 1u8",
            "expected 'Float32', found 'UInt8'",
        ),
        (
            "let ratio: Float32 = 1.5",
            "expected 'Float32', found 'Dec64'",
        ),
        (
            "let wide: Dec64 = 1.5f32",
            "expected 'Dec64', found 'Float32'",
        ),
        ("let wide: Dec64 = 1u8", "expected 'Dec64', found 'UInt8'"),
    ] {
        assert_error_contains(source, needle);
    }
}

#[test]
fn the_int64_to_dec64_conversion_still_works() {
    assert_checks("let wide: Dec64 = 1\nprint(wide + 1)");
}

#[test]
fn accepts_same_type_arithmetic_and_comparison_for_every_new_type() {
    for (name, literal) in NEW_TYPES {
        for operator in ["+", "-", "*", "/"] {
            assert_checks(&format!(
                "let result: {name} = {literal} {operator} {literal}"
            ));
        }
        for operator in ["<", "<=", ">", ">=", "==", "!="] {
            assert_checks(&format!("let flag: Bool = {literal} {operator} {literal}"));
        }
    }
}

#[test]
fn rejects_mixed_operands_in_every_category() {
    let others = ["1", "1.5", "1u8", "1u16", "1u32", "1u64", "1.5f32", "true"];
    for (_, literal) in NEW_TYPES {
        for other in others {
            if other == literal {
                continue;
            }
            assert_error_contains(
                &format!("print({literal} + {other})"),
                "operands must be two numbers of the same type",
            );
            assert_error_contains(
                &format!("print({literal} < {other})"),
                "operands must be two numbers of the same type",
            );
            assert_error_contains(&format!("print({literal} == {other})"), "expected");
        }
    }
}

#[test]
fn a_mixed_operand_pair_reports_one_diagnostic() {
    assert_eq!(errors("print(1u8 + 1)").len(), 1);
    assert_eq!(errors("print(1u8 < 1u16)").len(), 1);
    assert_eq!(errors("print(1u8 == 1)").len(), 1);
}

#[test]
fn arithmetic_and_comparison_keep_the_exact_operand_type() {
    for (name, literal) in NEW_TYPES {
        let program = assert_checks(&format!(
            "fun combine(): Bool do {literal} + {literal} < {literal} end\n\
             let bound: {name} = {literal}"
        ));
        let TStmt::Let { ty, .. } = &program.body.statements[0] else {
            panic!("expected a let statement");
        };
        let result = func(&program, "combine")
            .body
            .result
            .as_ref()
            .expect("combine produces a value");
        let TExpr::Cmp(left, _, _, operand_ty) = result else {
            panic!("expected a comparison");
        };
        assert_eq!(operand_ty, ty, "{name} comparison lost its operand type");
        let TExpr::Arith(_, _, _, arith_ty) = left.as_ref() else {
            panic!("expected arithmetic");
        };
        assert_eq!(arith_ty, ty, "{name} arithmetic lost its operand type");
    }
}

#[test]
fn print_accepts_every_new_type_and_returns_it() {
    for (name, literal) in NEW_TYPES {
        assert_checks(&format!("let echoed: {name} = print({literal})"));
    }
}

const POINT: &str = "type Point is struct x: Dec64, y: Dec64, end\n";
const SHAPE: &str = "type Shape is union\n\
     | Circle is struct radius: Int64, end\n\
     | Rectangle is struct length: Int64, width: Int64, end\n\
     end\n";
const DIRECTION: &str = "type Direction is union | East | West end\n";

#[test]
fn a_represented_type_wraps_and_unwraps_exactly_one_layer() {
    assert_checks(
        "type UserId is Int64\n\
         let id: UserId = UserId(42)\n\
         let number: Int64 = Int64(id)\n\
         print(number)",
    );
}

#[test]
fn a_represented_type_is_not_its_representation() {
    assert_error_contains(
        "type UserId is Int64\nlet id: UserId = 42",
        "expected 'UserId', found 'Int64'",
    );
    assert_error_contains(
        "type UserId is Int64\nlet id: UserId = UserId(42)\nlet n: Int64 = id",
        "expected 'Int64', found 'UserId'",
    );
    assert_error_contains(
        "type UserId is Int64\nlet id: UserId = UserId(42)\nprint(id + id)",
        "operands must be two numbers of the same type",
    );
}

#[test]
fn represented_conversion_names_the_required_immediate_type() {
    assert_error_contains(
        "type UserId is Int64\nlet id: UserId = UserId(1.5)",
        "wraps exactly its immediate representation 'Int64', found 'Dec64'",
    );
    assert_error_contains(
        "type UserId is Int64\nprint(Int64(7))",
        "unwraps exactly one value of a type represented by 'Int64', found 'Int64'",
    );
    assert_error_contains(
        "type UserId is Int64\nlet id: UserId = UserId(1, 2)",
        "converts exactly one positional value",
    );
    assert_error_contains(
        "type UserId is Int64\nlet id: UserId = UserId(value: 1)",
        "named arguments are only used to construct a struct",
    );
}

#[test]
fn represented_conversion_does_not_skip_a_layer() {
    assert_error_contains(
        "type Inner is Int64\ntype Outer is Inner\n\
         let value: Outer = Outer(Inner(1))\n\
         let flat: Int64 = Int64(value)",
        "unwraps exactly one value of a type represented by 'Int64', found 'Outer'",
    );
    assert_checks(
        "type Inner is Int64\ntype Outer is Inner\n\
         let value: Outer = Outer(Inner(1))\n\
         let one: Inner = Inner(value)\n\
         let flat: Int64 = Int64(one)\n\
         print(flat)",
    );
}

#[test]
fn same_representation_nominal_types_are_not_assignable_or_comparable() {
    assert_error_contains(
        "type UserId is Int64\ntype OrderId is Int64\n\
         let id: UserId = UserId(1)\nlet other: OrderId = id",
        "expected 'OrderId', found 'UserId'",
    );
    assert_error_contains(
        "type UserId is Int64\ntype OrderId is Int64\n\
         let id: UserId = UserId(1)\nlet other: OrderId = OrderId(1)\n\
         print(id == other)",
        "expected 'UserId', found 'OrderId'",
    );
}

#[test]
fn represented_values_compare_with_their_own_type_only() {
    assert_checks(
        "type UserId is Int64\n\
         let a: UserId = UserId(1)\nlet b: UserId = UserId(2)\nprint(a == b)",
    );
    assert_error_contains(
        "type UserId is Int64\nlet a: UserId = UserId(1)\nprint(a == 1)",
        "expected 'UserId', found 'Int64'",
    );
}

#[test]
fn struct_construction_accepts_reordered_named_fields() {
    let program = assert_checks(&format!(
        "{POINT}let point: Point = Point(y: 4.0, x: 3.0,)\nprint(point.x)"
    ));
    let TStmt::Let { value, .. } = &program.body.statements[0] else {
        panic!("expected a declaration");
    };
    let TExpr::Construct { fields, .. } = value else {
        panic!("expected a constructor");
    };
    assert_eq!(
        fields.iter().map(|(index, _)| *index).collect::<Vec<_>>(),
        vec![1, 0],
        "constructor entries keep written evaluation order with declaration indices"
    );
}

#[test]
fn rejects_malformed_struct_construction() {
    for (source, needle) in [
        ("let p: Point = Point(x: 1.0)", "is missing field 'y'"),
        (
            "let p: Point = Point(x: 1.0, x: 2.0, y: 3.0)",
            "Field 'Point.x' is supplied more than once",
        ),
        (
            "let p: Point = Point(x: 1.0, y: 2.0, z: 3.0)",
            "'Point' has no field 'z'",
        ),
        (
            "let p: Point = Point(1.0, 2.0)",
            "positional construction of a non-empty struct is invalid",
        ),
    ] {
        assert_error_contains(&format!("{POINT}{source}"), needle);
    }
}

#[test]
fn empty_structs_construct_with_parentheses_and_stay_nominal() {
    assert_checks(
        "type Marker is struct end\ntype Other is struct end\n\
         let marker: Marker = Marker()\nlet second: Marker = Marker()\n\
         print(marker == second)",
    );
    assert_error_contains(
        "type Marker is struct end\ntype Other is struct end\n\
         let marker: Marker = Marker()\nlet other: Other = Other()\n\
         print(marker == other)",
        "expected 'Marker', found 'Other'",
    );
    assert_error_contains(
        "type Marker is struct end\nlet marker: Marker = Marker(x: 1)",
        "has no fields, so it is constructed with '()'",
    );
    assert_error_contains(
        "type Marker is struct end\nlet marker: Marker = Marker",
        "a type name alone is never a value",
    );
}

#[test]
fn union_member_names_resolve_only_through_their_union() {
    assert_checks(&format!(
        "{SHAPE}let shape: Shape = Shape.Circle(radius: 10)\nprint(1)"
    ));
    assert_error_contains(
        &format!("{SHAPE}let c: Circle = 1"),
        "Unknown type 'Circle'",
    );
    assert_error_contains(
        &format!("{SHAPE}print(Circle(radius: 1))"),
        "'Circle' is not callable",
    );
    assert_error_contains(
        &format!("{SHAPE}let s: Shape = Shape.Triangle()"),
        "'Shape' has no member type 'Triangle'",
    );
}

#[test]
fn a_union_accepts_its_direct_members_and_rejects_others() {
    assert_checks(&format!(
        "{SHAPE}{DIRECTION}\
         let a: Shape = Shape.Circle(radius: 1)\n\
         let b: Shape = Shape.Rectangle(length: 1, width: 2)\n\
         let c: Direction = Direction.East()\nprint(1)"
    ));
    assert_error_contains(
        &format!("{SHAPE}{DIRECTION}let bad: Shape = Direction.East()"),
        "expected 'Shape', found 'Direction.East'",
    );
    assert_error_contains(
        &format!("{SHAPE}let bad: Shape = Shape(1)"),
        "construction names one member type, not the union itself",
    );
}

#[test]
fn struct_and_union_equality_follow_nominal_identity() {
    assert_checks(&format!(
        "{POINT}let a: Point = Point(x: 1.0, y: 2.0)\n\
         let b: Point = Point(x: 1.0, y: 2.0)\nprint(a == b)"
    ));
    assert_checks(&format!(
        "{SHAPE}let a: Shape = Shape.Circle(radius: 1)\n\
         let b: Shape = Shape.Rectangle(length: 1, width: 2)\nprint(a != b)"
    ));
    assert_error_contains(
        &format!(
            "{SHAPE}let a: Shape = Shape.Circle(radius: 1)\n\
             let b: Shape.Circle = Shape.Circle(radius: 1)\nprint(a == b)"
        ),
        "expected 'Shape', found 'Shape.Circle'",
    );
    assert_error_contains(
        &format!("{POINT}let a: Point = Point(x: 1.0, y: 2.0)\nprint(a < a)"),
        "operands must be two numbers of the same type",
    );
}

#[test]
fn union_tags_follow_source_order_from_zero() {
    let program = assert_checks(&format!("{SHAPE}print(1)"));
    let tags: Vec<(String, u32)> = program
        .types
        .iter()
        .filter_map(|def| match def {
            TypeDef::UnionMember { name, tag, .. } => Some((name.clone(), *tag)),
            _ => None,
        })
        .collect();
    assert_eq!(
        tags,
        vec![("Shape.Circle".into(), 0), ("Shape.Rectangle".into(), 1)]
    );
}

#[test]
fn methods_read_self_and_return_values() {
    let program = assert_checks(&format!(
        "{POINT}\
         method Point.sum(): Dec64 do self.x + self.y end\n\
         method Point.scaled(factor: Dec64): Point do \
            Point(x: self.x * factor, y: self.y * factor) end\n\
         let point: Point = Point(x: 3.0, y: 4.0)\n\
         print(point.sum())\n\
         print(Point(x: 1.0, y: 2.0).sum())\n\
         print(point.scaled(2.0).sum())"
    ));
    assert_eq!(program.methods.len(), 2);
    assert!(program.methods.iter().all(|m| !m.writes_receiver));
}

#[test]
fn method_lookup_is_exact_and_namespaced_by_receiver_type() {
    assert_checks(&format!(
        "{POINT}type Other is struct x: Dec64, end\n\
         method Point.width(): Dec64 do self.x end\n\
         method Other.width(): Dec64 do self.x end\n\
         let p: Point = Point(x: 1.0, y: 2.0)\n\
         let o: Other = Other(x: 1.0)\n\
         print(p.width())\nprint(o.width())"
    ));
    assert_error_contains(
        &format!(
            "{POINT}method Point.a(): Dec64 do 1.0 end\nmethod Point.a(): Dec64 do 2.0 end"
        ),
        "Method 'Point.a' already exists; methods are not overloaded",
    );
    assert_error_contains(
        &format!("{POINT}let p: Point = Point(x: 1.0, y: 2.0)\nprint(p.missing())"),
        "'Point' has no method 'missing'",
    );
    assert_error_contains(
        &format!(
            "{POINT}method Point.sum(): Dec64 do self.x end\n\
             let p: Point = Point(x: 1.0, y: 2.0)\nprint(p.sum)"
        ),
        "'Point.sum' is a method; a method requires a receiver call",
    );
    assert_error_contains(
        &format!("{POINT}let p: Point = Point(x: 1.0, y: 2.0)\nprint(p.x())"),
        "'Point.x' is a field, not a method, so it cannot be called",
    );
    assert_error_contains(
        "method Missing.thing(): Int64 do 1 end",
        "Unknown type 'Missing'",
    );
}

#[test]
fn self_is_rejected_outside_a_method() {
    assert_error_contains("print(self)", "'self' is only valid inside a method body");
    assert_error_contains(
        "fun f(): Int64 do self end",
        "'self' is only valid inside a method body",
    );
    assert_error_contains("self = 1", "'self' is only valid inside a method body");
    assert_rejected_by_parser("let self: Int64 = 1");
    assert_rejected_by_parser("fun f(self: Int64) do end");
}

#[test]
fn field_and_receiver_assignment_follow_root_mutability_only() {
    assert_checks(&format!(
        "{POINT}let mut point: Point = Point(x: 3.0, y: 4.0)\n\
         point.x = 5.0\npoint = Point(x: 0.0, y: 0.0)"
    ));
    assert_error_contains(
        &format!("{POINT}let point: Point = Point(x: 3.0, y: 4.0)\npoint.x = 5.0"),
        "'point' is not declared 'mut' and cannot be assigned",
    );
    assert_error_contains(
        &format!(
            "{POINT}let point: Point = Point(x: 3.0, y: 4.0)\npoint = Point(x: 0.0, y: 0.0)"
        ),
        "'point' is not declared 'mut' and cannot be assigned",
    );
    assert_error_contains(
        &format!("{POINT}fun shift(point: Point) do point.x = 1.0 end"),
        "'point' is not declared 'mut' and cannot be assigned",
    );
    assert_checks(&format!(
        "{POINT}type Entity is struct position: Point, end\n\
         let mut entity: Entity = Entity(position: Point(x: 1.0, y: 2.0))\n\
         entity.position.x = 1.0"
    ));
    assert_error_contains(
        &format!(
            "{POINT}type Entity is struct position: Point, end\n\
             let entity: Entity = Entity(position: Point(x: 1.0, y: 2.0))\n\
             entity.position.x = 1.0"
        ),
        "'entity' is not declared 'mut' and cannot be assigned",
    );
    assert_error_contains(
        &format!("{POINT}let mut point: Point = Point(x: 1.0, y: 2.0)\npoint.z = 1.0"),
        "'Point' has no field 'z'",
    );
}

#[test]
fn receiver_writing_calls_require_a_mutable_receiver_root() {
    let program = assert_checks(&format!(
        "{POINT}\
         method Point.translate(dx: Dec64, dy: Dec64) do \
            self.x = self.x + dx self.y = self.y + dy end\n\
         method Point.reset() do self = Point(x: 0.0, y: 0.0) end\n\
         method Point.sum(): Dec64 do self.x + self.y end\n\
         let mut point: Point = Point(x: 3.0, y: 4.0)\n\
         point.translate(1.0, 2.0)\npoint.reset()\nprint(point.sum())"
    ));
    let effects: Vec<(String, bool)> = program
        .methods
        .iter()
        .map(|m| (m.name.clone(), m.writes_receiver))
        .collect();
    assert_eq!(
        effects,
        vec![
            ("translate".into(), true),
            ("reset".into(), true),
            ("sum".into(), false)
        ]
    );
    for call in ["point.translate(1.0, 2.0)", "point.reset()"] {
        assert_error_contains(
            &format!(
                "{POINT}\
                 method Point.translate(dx: Dec64, dy: Dec64) do self.x = self.x + dx end\n\
                 method Point.reset() do self = Point(x: 0.0, y: 0.0) end\n\
                 let point: Point = Point(x: 3.0, y: 4.0)\n{call}"
            ),
            "requires a mutable root, but 'point' is not mutable",
        );
    }
    assert_error_contains(
        &format!(
            "{POINT}method Point.reset() do self = Point(x: 0.0, y: 0.0) end\n\
             Point(x: 1.0, y: 2.0).reset()"
        ),
        "requires a mutable root, but 'a temporary' is not mutable",
    );
}

#[test]
fn receiver_write_effects_reach_a_least_fixed_point() {
    let source = format!(
        "{POINT}\
         method Point.bump() do self.x = self.x + 1.0 end\n\
         method Point.outer() do self.middle() end\n\
         method Point.middle() do self.bump() end\n\
         method Point.ping() do self.pong() end\n\
         method Point.pong() do self.ping() end\n\
         method Point.local_only() do let mut n: Dec64 = 1.0 n = n + 1.0 end\n\
         method Point.selfish() do self.selfish() end\n\
         let mut point: Point = Point(x: 1.0, y: 2.0)\npoint.outer()"
    );
    let program = assert_checks(&source);
    let effects: Vec<(String, bool)> = program
        .methods
        .iter()
        .map(|m| (m.name.clone(), m.writes_receiver))
        .collect();
    assert_eq!(
        effects,
        vec![
            ("bump".into(), true),
            ("outer".into(), true),
            ("middle".into(), true),
            ("ping".into(), false),
            ("pong".into(), false),
            ("local_only".into(), false),
            ("selfish".into(), false),
        ]
    );
    assert_error_contains(
        &source.replace("let mut point", "let point"),
        "'Point.outer' may assign through 'self', so its receiver requires a mutable root",
    );
    assert_checks(&format!(
        "{POINT}type Entity is struct position: Point, end\n\
         method Point.bump() do self.x = self.x + 1.0 end\n\
         let mut entity: Entity = Entity(position: Point(x: 1.0, y: 2.0))\n\
         entity.position.bump()"
    ));
}

#[test]
fn a_type_test_binding_is_an_immutable_root() {
    assert_error_contains(
        &format!(
            "{SHAPE}let shape: Shape = Shape.Circle(radius: 1)\n\
             if shape is Shape.Circle(circle) then circle.radius = 2 end"
        ),
        "'circle' is not declared 'mut' and cannot be assigned",
    );
}

#[test]
fn no_result_method_calls_are_rejected_in_value_positions() {
    assert_checks(&format!(
        "{POINT}method Point.noop() do print(1) end\n\
         let mut p: Point = Point(x: 1.0, y: 2.0)\np.noop()"
    ));
    assert_error_contains(
        &format!(
            "{POINT}method Point.noop() do print(1) end\n\
             let mut p: Point = Point(x: 1.0, y: 2.0)\nlet n: Int64 = p.noop()"
        ),
        "'Point.noop' declares no result, so its call cannot be used as a value",
    );
}

#[test]
fn a_type_name_may_not_share_a_call_head_with_a_callable() {
    assert_error_contains(
        "type Point is struct x: Int64, end\nfun Point(): Int64 do 1 end",
        "shares a call head with the function or Rust bridge of the same name",
    );
    assert_error_contains(
        "type Point is struct x: Int64, end\n\
         extern rust \"snacc_user_point\" fun Point(): Int64",
        "shares a call head with the function or Rust bridge of the same name",
    );
    assert_error_contains(
        "type Point is struct x: Int64, end\ntype Point is Int64",
        "Type 'Point' already exists",
    );
}

#[test]
fn a_binding_wins_a_qualified_call_head_over_a_type_path() {
    assert_checks(
        "type Case is union | Item is struct n: Int64, end end\n\
         method Case.Item.get(): Int64 do self.n end\n\
         fun read(Case: Case.Item): Int64 do Case.get() end\n\
         print(read(Case.Item(n: 1)))",
    );
    assert_checks(
        "type Case is union | Item is struct n: Int64, end end\n\
         let held: Case = Case.Item(n: 1)\nprint(1)",
    );
    assert_error_contains(
        "fun f(value: Int64): Int64 do value(1) end",
        "'value' is a variable; Snacc has no function values, so it cannot be called",
    );
    assert_error_contains("print(missing(1))", "'missing' is not callable");
    assert_checks(
        "fun double(value: Int64): Int64 do value * 2 end\n\
         fun use(double: Int64): Int64 do double(double) end\n\
         print(use(3))",
    );
    assert_checks(
        "type Wrapper is struct n: Int64, end\n\
         fun build(Wrapper: Int64): Int64 do Wrapper(n: Wrapper).n end\n\
         print(build(3))",
    );
}

#[test]
fn type_tests_narrow_only_inside_their_own_branch() {
    assert_checks(&format!(
        "{SHAPE}let shape: Shape = Shape.Circle(radius: 10)\n\
         if shape is Shape.Circle(circle) then print(circle.radius) \
         elseif shape is Shape.Rectangle(rectangle) then \
         print(rectangle.length * rectangle.width) end"
    ));
    assert_error_contains(
        &format!(
            "{SHAPE}let shape: Shape = Shape.Circle(radius: 10)\n\
             if shape is Shape.Circle(circle) then print(1) else print(circle.radius) end"
        ),
        "No such variable 'circle' in scope",
    );
    assert_error_contains(
        &format!(
            "{SHAPE}let shape: Shape = Shape.Circle(radius: 10)\n\
             if shape is Shape.Circle(circle) then print(1) end\nprint(circle.radius)"
        ),
        "No such variable 'circle' in scope",
    );
    assert_error_contains(
        &format!(
            "{SHAPE}let circle: Int64 = 1\nlet shape: Shape = Shape.Circle(radius: 10)\n\
             if shape is Shape.Circle(circle) then print(1) end"
        ),
        "Binding 'circle' already exists",
    );
    assert_error_contains(
        &format!(
            "{SHAPE}let shape: Shape = Shape.Circle(radius: 10)\n\
             if shape is Shape.Circle(c) then print(1) elseif shape is Shape.Rectangle(c) \
             then print(2) end"
        ),
        "Binding 'c' already exists",
    );
}

#[test]
fn a_bare_type_test_supplies_a_bool_condition() {
    let program = assert_checks(&format!(
        "{DIRECTION}let d: Direction = Direction.East()\n\
         if d is Direction.East then print(1) elseif d is Direction.West then print(2) end"
    ));
    let TStmt::If(form) = &program.body.statements[1] else {
        panic!("expected an if statement");
    };
    let tags: Vec<u32> = form
        .arms
        .iter()
        .map(|(condition, _)| match condition {
            TCondition::Test(test) => test.tag,
            TCondition::Expr(_) | TCondition::SumTest(_) => panic!("expected a union test"),
        })
        .collect();
    assert_eq!(tags, vec![0, 1]);
    assert!(form.exhaustive);
}

#[test]
fn invalid_type_tests_are_rejected() {
    assert_error_contains(
        &format!(
            "{SHAPE}{DIRECTION}let shape: Shape = Shape.Circle(radius: 1)\n\
             if shape is Direction.East then print(1) end"
        ),
        "'Direction.East' is not a direct member of 'Shape'",
    );
    assert_error_contains(
        &format!(
            "{SHAPE}let shape: Shape = Shape.Circle(radius: 1)\n\
             if shape is Shape then print(1) end"
        ),
        "already has type 'Shape', so this test is always true",
    );
    assert_error_contains(
        &format!(
            "{POINT}let p: Point = Point(x: 1.0, y: 2.0)\nif p is Point then print(1) end"
        ),
        "the left side of 'is' must have a union type",
    );
    assert_error_contains(
        &format!(
            "{SHAPE}let c: Shape.Circle = Shape.Circle(radius: 1)\n\
             if c is Shape.Circle then print(1) end"
        ),
        "the left side of 'is' must have a union type",
    );
    assert_rejected_by_parser(&format!(
        "{SHAPE}fun make(): Shape do Shape.Circle(radius: 1) end\n\
         if make() is Shape.Circle then print(1) end"
    ));
}

#[test]
fn an_exhaustive_chain_produces_a_value_without_an_else() {
    let program = assert_checks(&format!(
        "{DIRECTION}\
         fun pick(d: Direction): Int64 do \
            if d is Direction.East then 1 elseif d is Direction.West then 2 end end\n\
         print(pick(Direction.East()))"
    ));
    let result = func(&program, "pick")
        .body
        .result
        .as_ref()
        .expect("pick produces a value");
    let TExpr::If(form) = result else {
        panic!("expected a value-form if");
    };
    assert!(form.exhaustive);
    assert!(form.else_branch.is_none());

    assert_checks(&format!(
        "{SHAPE}\
         fun area(shape: Shape): Int64 do \
            if shape is Shape.Circle(circle) then circle.radius * circle.radius \
            elseif shape is Shape.Rectangle(rectangle) then \
            rectangle.length * rectangle.width end end\n\
         print(area(Shape.Circle(radius: 2)))"
    ));
}

#[test]
fn non_exhaustive_and_unreachable_chains_are_rejected() {
    let three = "type Light is union | Red | Amber | Green end\n";
    assert_error_contains(
        &format!(
            "{three}fun pick(l: Light): Int64 do \
             if l is Light.Red then 1 elseif l is Light.Amber then 2 end end"
        ),
        "does not handle Light.Green",
    );
    assert_error_contains(
        &format!(
            "{DIRECTION}fun pick(d: Direction): Int64 do \
             if d is Direction.East then 1 elseif d is Direction.East then 2 \
             elseif d is Direction.West then 3 end end"
        ),
        "'Direction.East' is already handled by an earlier branch",
    );
    assert_error_contains(
        &format!(
            "{DIRECTION}fun pick(a: Direction, b: Direction): Int64 do \
             if a is Direction.East then 1 elseif b is Direction.West then 2 end end"
        ),
        "requires an 'else' branch",
    );
    assert_error_contains(
        &format!(
            "{DIRECTION}fun pick(d: Direction, flag: Bool): Int64 do \
             if d is Direction.East then 1 elseif flag then 2 end end"
        ),
        "requires an 'else' branch",
    );
    for source in [
        format!(
            "{DIRECTION}fun pick(d: Direction): Int64 do \
             if d is Direction.East then 1 elseif d is Direction.West then 2 else 3 end end"
        ),
        format!(
            "{DIRECTION}let d: Direction = Direction.East()\n\
             if d is Direction.East then print(1) elseif d is Direction.West then print(2) \
             else print(3) end"
        ),
    ] {
        assert_error_contains(&source, "so the 'else' branch is unreachable");
    }
}

#[test]
fn an_exhaustive_chain_may_test_a_field_path() {
    let types =
        format!("{DIRECTION}type Entity is struct heading: Direction, spare: Direction, end\n");
    assert_checks(&format!(
        "{types}fun rank(entity: Entity): Int64 do \
         if entity.heading is Direction.East then 1 \
         elseif entity.heading is Direction.West then 2 end end"
    ));
    assert_error_contains(
        &format!(
            "{types}fun rank(entity: Entity): Int64 do \
             if entity.heading is Direction.East then 1 \
             elseif entity.spare is Direction.West then 2 end end"
        ),
        "requires an 'else' branch",
    );
}

#[test]
fn a_method_call_keeps_its_receiver_and_arguments_in_order() {
    let program = assert_checks(&format!(
        "{POINT}method Point.combine(a: Dec64, b: Dec64): Dec64 do self.x + a + b end\n\
         let p: Point = Point(x: 1.0, y: 2.0)\nprint(p.combine(3.0, 4.0))"
    ));
    let TStmt::Expr(TExpr::Print(value, _)) = &program.body.statements[1] else {
        panic!("expected a print statement");
    };
    let TExpr::MethodCall(call) = value.as_ref() else {
        panic!("expected a method call");
    };
    assert!(
        matches!(&call.receiver, TReceiver::Place(place) if place.root == PlaceRoot::Local("p".into())),
        "a place receiver keeps its addressable storage"
    );
    assert_eq!(call.args.len(), 2);
}

#[test]
fn adding_a_union_member_breaks_an_exhaustive_chain() {
    let chain = "fun pick(d: Direction): Int64 do \
         if d is Direction.East then 1 elseif d is Direction.West then 2 end end";
    assert_checks(&format!("{DIRECTION}{chain}"));
    assert_error_contains(
        &format!("type Direction is union | East | West | North end\n{chain}"),
        "does not handle Direction.North",
    );
}

#[test]
fn recursive_value_layouts_are_rejected() {
    assert_error_contains(
        "type Node is struct next: Node, end",
        "Type 'Node' has an infinite value layout: Node -> Node",
    );
    assert_error_contains(
        "type A is struct b: B, end\ntype B is struct a: A, end",
        "has an infinite value layout: A -> B -> A",
    );
    assert_error_contains(
        "type A is B\ntype B is A",
        "has an infinite value layout: A -> B -> A",
    );
    assert_error_contains(
        "type Tree is union | Leaf | Branch is struct child: Tree, end end",
        "has an infinite value layout",
    );
}

#[test]
fn user_defined_types_are_rejected_at_every_bridge_site() {
    for declaration in [
        "extern rust \"snacc_user_take\" fun take(value: Point)",
        "extern rust \"snacc_user_make\" fun make(): Point",
    ] {
        assert_error_contains(
            &format!("{POINT}{declaration}"),
            "only the ABI's permitted types may cross a Rust bridge",
        );
    }
    assert_error_contains(
        &format!("{SHAPE}extern rust \"snacc_user_take\" fun take(value: Shape.Circle)"),
        "'Shape.Circle' is a user-defined type",
    );
    assert_error_contains(
        "type UserId is Int64\nextern rust \"snacc_user_take\" fun take(value: UserId)",
        "'UserId' is a user-defined type",
    );
    assert_checks(&format!(
        "{POINT}fun identity(point: Point): Point do point end\n\
         print(identity(Point(x: 1.0, y: 2.0)).x)"
    ));
}

#[test]
fn common_union_types_come_from_the_expected_type() {
    assert_checks(&format!(
        "{DIRECTION}\
         fun pick(flag: Bool): Direction do \
            if flag then Direction.East() else Direction.West() end end\n\
         fun take(d: Direction): Int64 do 1 end\n\
         print(take(Direction.East()))\nprint(take(pick(true)))"
    ));
    assert_error_contains(
        &format!(
            "{DIRECTION}{SHAPE}\
             fun pick(flag: Bool): Direction do \
                if flag then Direction.East() else Shape.Circle(radius: 1) end end"
        ),
        "expected 'Direction', found 'Shape.Circle'",
    );
    assert_error_contains(
        &format!(
            "{DIRECTION}fun pick(flag: Bool): Int64 do \
             if flag then Direction.East() else 1 end end"
        ),
        "expected 'Int64', found 'Direction.East'",
    );
}

#[test]
fn nil_is_available_as_a_union_member() {
    assert_checks(
        "type UserId is Int64\n\
         type MaybeUser is union | User is struct id: UserId, end | Nil end\n\
         let missing: MaybeUser = nil\n\
         let present: MaybeUser = MaybeUser.User(id: UserId(10))\n\
         if missing is Nil then print(1) elseif missing is MaybeUser.User(user) then \
         print(Int64(user.id)) end\n\
         print(missing == nil)",
    );
    assert_error_contains(
        "type MaybeUser is union | User is struct id: Int64, end | Nil end\n\
         let missing: MaybeUser = nil\n\
         if missing is Nil(value) then print(1) end",
        "'Nil' carries no value, so it cannot be bound by a type test",
    );
    assert_error_contains(
        "type Empty is union | Nil end",
        "contains only 'Nil'; 'Nil' requires another member type",
    );
}

#[test]
fn standalone_nil_is_rejected_in_every_type_position() {
    for source in [
        "let value: Nil = nil",
        "fun consume(value: Nil) do print(1) end",
        "fun produce(): Nil do nil end",
        "fun update(value: Ref<Nil>) do print(1) end",
        "type Empty is Nil",
        "type Holder is struct value: Nil, end",
        "type Maybe is union | Held is struct value: Nil, end | Nil end",
        "extern rust \"snacc_user_take\" fun take(value: Nil)\nprint(0)",
        "extern rust \"snacc_user_make\" fun make(): Nil\nprint(0)",
        "extern rust \"snacc_user_ref\" fun update(value: Ref<Nil>)\nprint(0)",
        &format!("{POINT}method Point.at(value: Nil) do print(1) end"),
        &format!("{POINT}method Point.at(): Nil do nil end"),
    ] {
        assert_error_contains(source, "'Nil' is not a standalone type");
    }
}

#[test]
fn contextual_nil_requires_one_nil_containing_union() {
    assert_checks(
        "type Maybe is union | Some is struct value: Int64, end | Nil end\n\
         let missing: Maybe = null\n\
         fun absent(): Maybe do nil end\n\
         fun take(value: Maybe): Bool do value == nil end\n\
         print(take(absent()))",
    );
    for source in ["print(nil)", "print(nil == nil)", "print(null)"] {
        assert_error_contains(source, "'nil' has no type of its own");
    }
    assert_error_contains("let value: Int64 = nil", "expected 'Int64', found 'Nil'");
}

#[test]
fn duplicate_fields_and_union_members_are_rejected() {
    assert_error_contains(
        "type Point is struct x: Dec64, x: Dec64, end",
        "Field 'Point.x' already exists",
    );
    assert_error_contains(
        "type Shape is union | Circle | Circle end",
        "Union member 'Shape.Circle' already exists",
    );
}

#[test]
fn field_access_and_printing_reject_unsupported_receivers() {
    assert_error_contains(
        "let value: Int64 = 1\nprint(value.field)",
        "'Int64' is not a struct, so it has no field 'field'",
    );
    assert_error_contains(
        &format!("{SHAPE}let shape: Shape = Shape.Circle(radius: 1)\nprint(shape.radius)"),
        "'Shape' is not a struct, so it has no field 'radius'",
    );
    assert_error_contains(
        &format!("{POINT}print(Point(x: 1.0, y: 2.0))"),
        "'print' does not support the user-defined type 'Point'",
    );
    assert_error_contains(
        "type UserId is Int64\nprint(UserId(1))",
        "'print' does not support the user-defined type 'UserId'",
    );
    assert_checks("type UserId is Int64\nprint(Int64(UserId(1)))");
}

#[test]
fn user_types_combine_with_no_result_functions_and_fixed_width_scalars() {
    assert_checks(
        "type Pixel is struct red: UInt8, green: UInt8, blue: UInt8, ratio: Float32, end\n\
         method Pixel.brightest(): UInt8 do self.red end\n\
         fun announce(value: UInt8) do print(value) end\n\
         let pixel: Pixel = Pixel(red: 1u8, green: 2u8, blue: 3u8, ratio: 0.5f32)\n\
         announce(pixel.brightest())\n\
         print(pixel.ratio)",
    );
}

#[test]
fn methods_attach_to_unions_and_to_their_members() {
    assert_checks(&format!(
        "{SHAPE}\
         method Shape.Circle.area(): Int64 do self.radius * self.radius end\n\
         method Shape.describe(): Int64 do \
            if self is Shape.Circle(circle) then circle.area() \
            elseif self is Shape.Rectangle(rectangle) then \
            rectangle.length * rectangle.width end end\n\
         let shape: Shape = Shape.Circle(radius: 2)\nprint(shape.describe())"
    ));
    assert_error_contains(
        &format!(
            "{SHAPE}method Shape.Circle.area(): Int64 do self.radius end\n\
             let shape: Shape = Shape.Circle(radius: 2)\nprint(shape.area())"
        ),
        "'Shape' has no method 'area'",
    );
}

const ADD_INTO: &str =
    "fun add_into(x: Int64, y: Int64, result: Ref<Int64>) do result = x + y end\n";
const EXCHANGE: &str = "fun exchange(left: Ref<Dec64>, right: Ref<Dec64>) do \
                        let saved: Dec64 = left left = right right = saved end\n";

fn top_level_args(program: &Program) -> &[TArg] {
    program
        .body
        .statements
        .iter()
        .find_map(|statement| match statement {
            TStmt::Call(_, args) | TStmt::Expr(TExpr::Call(_, args)) => Some(args.as_slice()),
            TStmt::MethodCall(call) => Some(call.args.as_slice()),
            _ => None,
        })
        .expect("the top-level body contains a call")
}

#[test]
fn a_reference_parameter_carries_a_resolved_place_to_lowering() {
    let program = assert_checks(&format!(
        "{ADD_INTO}let x: Int64 = 20\nlet y: Int64 = 22\n\
         let mut z: Int64 = 0\nadd_into(x, y, z)\nprint(z)"
    ));
    assert_eq!(
        func(&program, "add_into").params[2].mode,
        ParamMode::Reference
    );
    assert_eq!(func(&program, "add_into").params[2].ty, Ty::Int64);
    assert_eq!(func(&program, "add_into").params[0].mode, ParamMode::Value);
    let args = top_level_args(&program);
    assert!(matches!(args[0], TArg::Value(_)));
    assert!(matches!(args[1], TArg::Value(_)));
    let TArg::Reference(place) = &args[2] else {
        panic!("the third argument should be a reference place");
    };
    assert_eq!(place.root, PlaceRoot::Local("z".into()));
    assert_eq!(place.ty, Ty::Int64);
    assert!(place.path.is_empty());
}

#[test]
fn a_reference_parameter_is_a_mutable_root_of_its_referent_type() {
    assert_checks("fun increment(value: Ref<Int64>) do value = value + 1 end\nprint(0)");
    assert_error_contains(
        "fun increment(value: Int64) do value = value + 1 end\nprint(0)",
        "'value' is not declared 'mut' and cannot be assigned",
    );
}

#[test]
fn rejects_every_reference_argument_that_is_not_a_mutable_place() {
    assert_error_contains(
        &format!("{ADD_INTO}let total: Int64 = 0\nadd_into(20, 22, total)"),
        "'total' is not declared 'mut', so it cannot be passed to the reference \
         parameter 'result' of 'add_into'",
    );
    for argument in ["0", "make_total()", "1 + 2"] {
        assert_error_contains(
            &format!(
                "{ADD_INTO}fun make_total(): Int64 do 0 end\nadd_into(20, 22, {argument})"
            ),
            "requires an initialized mutable place of type 'Int64', but this argument \
             is a value with no storage",
        );
    }
}

#[test]
fn a_referent_is_always_an_initialized_mutable_local() {
    assert_rejected_by_parser("let result: Int64");
    assert_checks(&format!(
        "{ADD_INTO}let mut result: Int64 = 0\nadd_into(20, 22, result)\nprint(result)"
    ));
}

#[test]
fn struct_fields_rooted_at_a_mutable_variable_are_valid_referents() {
    let program = assert_checks(&format!(
        "{POINT}fun move_right(point: Ref<Point>, amount: Dec64) do \
         point.x = point.x + amount end\n\
         fun bump(value: Ref<Dec64>) do value = value + 1.0 end\n\
         let mut point: Point = Point(x: 1.0, y: 2.0)\n\
         bump(point.x)\n\
         move_right(point, 1.0)"
    ));
    let TArg::Reference(place) = &top_level_args(&program)[0] else {
        panic!("expected a reference argument");
    };
    assert_eq!(place.root, PlaceRoot::Local("point".into()));
    assert_eq!(place.path, vec![0]);
    assert_eq!(place.ty, Ty::Dec64);
    assert_error_contains(
        &format!(
            "{POINT}fun bump(value: Ref<Dec64>) do value = value + 1.0 end\n\
             let point: Point = Point(x: 1.0, y: 2.0)\nbump(point.x)"
        ),
        "'point' is not declared 'mut'",
    );
}

#[test]
fn a_reference_argument_requires_the_exact_referent_type() {
    assert_error_contains(
        "fun scale(value: Ref<Dec64>) do value = value * 2.0 end\n\
         let mut count: Int64 = 1\nscale(count)",
        "reference parameter 'value' of 'scale' requires a place of exactly type \
         'Dec64', found 'Int64'",
    );
    assert_checks(
        "fun scale(value: Dec64): Dec64 do value * 2.0 end\n\
         let count: Int64 = 1\nprint(scale(count))",
    );
    assert_error_contains(
        "type UserId is Int64\nfun bump(value: Ref<Int64>) do value = value + 1 end\n\
         let mut id: UserId = UserId(1)\nbump(id)",
        "requires a place of exactly type 'Int64', found 'UserId'",
    );
    assert_error_contains(
        "type UserId is Int64\nfun bump(value: Ref<UserId>) do value = UserId(1) end\n\
         let mut raw: Int64 = 1\nbump(raw)",
        "requires a place of exactly type 'UserId', found 'Int64'",
    );
}

#[test]
fn an_automatic_read_behaves_exactly_like_a_loaded_value() {
    assert_checks(
        "fun show(value: Int64) do print(value) end\n\
         fun widen(value: Dec64): Dec64 do value end\n\
         fun use_all(value: Ref<Int64>): Bool do\n\
             print(value)\n\
             show(value)\n\
             print(widen(value))\n\
             value > 0\n\
         end\n\
         let mut count: Int64 = 1\nprint(use_all(count))",
    );
}

#[test]
fn assignment_through_a_reference_replaces_a_complete_value() {
    assert_checks(&format!(
        "{POINT}{SHAPE}type UserId is Int64\n\
         fun set_scalar(value: Ref<Int64>) do value = 7 end\n\
         fun set_represented(value: Ref<UserId>) do value = UserId(7) end\n\
         fun set_struct(value: Ref<Point>) do value = Point(x: 0.0, y: 0.0) end\n\
         fun set_union(value: Ref<Shape>) do value = Shape.Circle(radius: 1) end\n\
         let mut scalar: Int64 = 0\n\
         let mut id: UserId = UserId(0)\n\
         let mut point: Point = Point(x: 1.0, y: 1.0)\n\
         let mut shape: Shape = Shape.Circle(radius: 0)\n\
         set_scalar(scalar)\nset_represented(id)\nset_struct(point)\nset_union(shape)"
    ));
    assert_error_contains(
        "fun set(value: Ref<Int64>) do value = true end\nprint(0)",
        "expected 'Int64', found 'Bool'",
    );
}

#[test]
fn forwarding_a_reference_parameter_reborrows_it() {
    let program = assert_checks(
        "fun increment(value: Ref<Int64>) do value = value + 1 end\n\
         fun twice(value: Ref<Int64>) do increment(value) increment(value) end\n\
         let mut count: Int64 = 0\ntwice(count)",
    );
    let TStmt::Call(_, args) = &func(&program, "twice").body.statements[0] else {
        panic!("expected a forwarded call");
    };
    let TArg::Reference(place) = &args[0] else {
        panic!("a forwarded reference parameter stays a reference argument");
    };
    assert_eq!(place.root, PlaceRoot::Local("value".into()));
    assert_checks(&format!(
        "{POINT}fun bump(value: Ref<Dec64>) do value = value + 1.0 end\n\
         fun bump_x(point: Ref<Point>) do bump(point.x) end\nprint(0)"
    ));
    assert_error_contains(
        "fun increment(value: Ref<Int64>) do value = value + 1 end\n\
         fun twice(value: Int64) do increment(value) end\nprint(0)",
        "'value' is not declared 'mut'",
    );
}

#[test]
fn a_reference_parameter_supplied_by_value_is_copied() {
    let program = assert_checks(
        "fun show(value: Int64) do print(value) end\n\
         fun relay(value: Ref<Int64>) do show(value) end\nprint(0)",
    );
    let TStmt::Call(_, args) = &func(&program, "relay").body.statements[0] else {
        panic!("expected a value call");
    };
    assert!(matches!(args[0], TArg::Value(_)));
}

#[test]
fn overlapping_reference_arguments_are_rejected_and_siblings_are_accepted() {
    assert_error_contains(
        &format!("{EXCHANGE}let mut value: Dec64 = 1.0\nexchange(value, value)"),
        "reference arguments 'value' and 'value' overlap, so parameters 'left' and \
         'right' cannot both have exclusive access",
    );
    assert_error_contains(
        &format!(
            "{POINT}fun use_both(whole: Ref<Point>, part: Ref<Dec64>) do \
             part = whole.y end\n\
             let mut point: Point = Point(x: 1.0, y: 2.0)\nuse_both(point, point.x)"
        ),
        "reference arguments 'point' and 'point.x' overlap",
    );
    assert_checks(&format!(
        "{POINT}{EXCHANGE}let mut point: Point = Point(x: 1.0, y: 2.0)\n\
         exchange(point.x, point.y)"
    ));
    assert_checks(&format!(
        "{EXCHANGE}let mut a: Dec64 = 1.0\nlet mut b: Dec64 = 2.0\nexchange(a, b)"
    ));
}

#[test]
fn overlap_compares_complete_field_paths() {
    const NESTED: &str = "type Point is struct x: Dec64, y: Dec64, end\n\
                          type Entity is struct position: Point, velocity: Point, end\n";
    assert_checks(&format!(
        "{NESTED}{EXCHANGE}let mut entity: Entity = Entity(\
         position: Point(x: 0.0, y: 0.0), velocity: Point(x: 0.0, y: 0.0))\n\
         exchange(entity.position.x, entity.velocity.x)"
    ));
    assert_error_contains(
        &format!(
            "{NESTED}fun use_both(whole: Ref<Point>, part: Ref<Dec64>) do \
             part = whole.y end\n\
             let mut entity: Entity = Entity(\
             position: Point(x: 0.0, y: 0.0), velocity: Point(x: 0.0, y: 0.0))\n\
             use_both(entity.position, entity.position.x)"
        ),
        "reference arguments 'entity.position' and 'entity.position.x' overlap",
    );
}

#[test]
fn a_method_receiver_participates_in_overlap_checking() {
    const READ_ONLY: &str = "type Point is struct x: Dec64, y: Dec64, end\n\
                             method Point.give(other: Ref<Dec64>) do other = self.x end\n";
    const WRITING: &str = "type Point is struct x: Dec64, y: Dec64, end\n\
                           method Point.take(other: Ref<Dec64>) do self.x = other end\n";
    for source in [READ_ONLY, WRITING] {
        let name = if std::ptr::eq(source, READ_ONLY) {
            "give"
        } else {
            "take"
        };
        assert_error_contains(
            &format!(
                "{source}let mut point: Point = Point(x: 1.0, y: 2.0)\npoint.{name}(point.y)"
            ),
            "overlaps the receiver 'point', which the method may access through 'self'",
        );
    }
    assert_checks(&format!(
        "{READ_ONLY}let mut total: Dec64 = 0.0\n\
         let point: Point = Point(x: 1.0, y: 2.0)\npoint.give(total)"
    ));
    assert_checks(&format!(
        "{READ_ONLY}let mut total: Dec64 = 0.0\nPoint(x: 1.0, y: 2.0).give(total)"
    ));
}

#[test]
fn passing_a_self_rooted_place_by_reference_is_a_receiver_write() {
    assert_error_contains(
        &format!(
            "{POINT}fun bump(value: Ref<Dec64>) do value = value + 1.0 end\n\
             method Point.grow() do bump(self.x) end\n\
             let point: Point = Point(x: 1.0, y: 2.0)\npoint.grow()"
        ),
        "may assign through 'self', so its receiver requires a mutable root",
    );
    assert_checks(&format!(
        "{POINT}fun bump(value: Ref<Dec64>) do value = value + 1.0 end\n\
         method Point.grow() do bump(self.x) end\n\
         let mut point: Point = Point(x: 1.0, y: 2.0)\npoint.grow()"
    ));
}

#[test]
fn methods_resolve_through_a_reference_parameter() {
    assert_checks(&format!(
        "{POINT}method Point.length(): Dec64 do self.x + self.y end\n\
         method Point.reset() do self.x = 0.0 end\n\
         fun report(point: Ref<Point>) do\n\
             print(point.length())\n\
             point.reset()\n\
         end\n\
         let mut point: Point = Point(x: 1.0, y: 2.0)\nreport(point)"
    ));
    assert_error_contains(
        &format!(
            "{POINT}method Point.reset() do self.x = 0.0 end\n\
             fun report(point: Point) do point.reset() end\nprint(0)"
        ),
        "may assign through 'self', so its receiver requires a mutable root",
    );
}

#[test]
fn the_same_place_may_be_read_by_value_and_referenced_in_one_call() {
    let program = assert_checks(
        "fun replace(previous: Int64, value: Ref<Int64>) do value = previous + 1 end\n\
         let mut number: Int64 = 4\nreplace(number, number)",
    );
    let args = top_level_args(&program);
    assert!(matches!(args[0], TArg::Value(_)));
    assert!(matches!(args[1], TArg::Reference(_)));
}

#[test]
fn a_reference_is_never_storable_or_constructible() {
    for source in [
        "fun f(value: Ref<Int64>): Ref<Int64> do value end",
        "let saved: Ref<Int64> = 1",
        "type Holder is struct value: Ref<Int64>, end",
        "type Alias is Ref<Int64>",
        "type Shape is union | Circle is struct radius: Ref<Int64>, end | Nil end",
        "fun f(value: Ref<Ref<Int64>>) do print(1) end",
        "method Point.f(self: Ref<Point>) do print(1) end",
        "let saved: Int64 = Ref(1)",
    ] {
        assert_rejected_by_parser(source);
    }
    assert_checks(
        "fun read(value: Ref<Int64>): Int64 do value end\n\
         let mut count: Int64 = 1\nprint(read(count))",
    );
}

#[test]
fn reference_parameters_are_permitted_on_methods_and_bridges() {
    assert_checks(&format!(
        "{POINT}method Point.give(other: Ref<Dec64>) do other = self.x end\n\
         extern rust \"snacc_user_bump\" fun rust_bump(value: Ref<Int64>)\n\
         let mut total: Dec64 = 0.0\nlet mut count: Int64 = 0\n\
         let point: Point = Point(x: 1.0, y: 2.0)\n\
         point.give(total)\nrust_bump(count)"
    ));
    assert_error_contains(
        &format!(
            "{POINT}extern rust \"snacc_user_move\" fun rust_move(point: Ref<Point>)\n\
             print(0)"
        ),
        "only the ABI's permitted types may cross a Rust bridge",
    );
}

#[test]
fn sum_identity_ignores_member_order() {
    assert_checks("let a: UInt8 | Nil = nil\nlet b: Nil | UInt8 = a\nprint(0)");
}

#[test]
fn sum_identity_ignores_parenthesized_grouping() {
    assert_checks("let a: Bool | Nil | UInt8 = nil\nlet b: (UInt8 | Bool) | Nil = a\nprint(0)");
}

#[test]
fn rejects_fewer_than_two_distinct_sum_members() {
    assert_error_contains(
        "let x: UInt8 | UInt8 = 1u8",
        "at least two distinct member types",
    );
}

#[test]
fn rejects_a_repeated_member_after_flattening() {
    assert_error_contains(
        "let x: (UInt8 | Bool) | UInt8 = 1u8",
        "is repeated in this sum type",
    );
}

#[test]
fn rejects_a_lone_nil_member() {
    assert_error_contains(
        "let x: Nil | Nil = nil",
        "valid in a sum type only alongside",
    );
}

#[test]
fn an_unresolved_sum_member_is_reported_once() {
    assert_error_contains("let x: Foo | Nil = nil", "Unknown type 'Foo'");
}

#[test]
fn an_inline_sum_cannot_be_a_represented_types_target() {
    assert_error_contains(
        "type MaybeByte is UInt8 | Nil",
        "cannot be a represented type's immediate representation",
    );
}

#[test]
fn a_reference_cannot_be_a_sum_member() {
    assert_rejected_by_parser("let value: Ref<UInt8> | Nil = nil");
}

#[test]
fn a_self_referential_inline_sum_field_is_an_infinite_layout() {
    assert_error_contains(
        "type Node is struct next: Node | Nil, end",
        "has an infinite value layout",
    );
}

#[test]
fn a_named_union_is_one_opaque_member_of_an_inline_sum() {
    assert_checks(&format!(
        "{SHAPE}fun classify(value: Shape | Nil): Int64 do \
         if value is Shape(shape) then \
             if shape is Shape.Circle(circle) then circle.radius \
             elseif shape is Shape.Rectangle(rectangle) then rectangle.length end \
         elseif value is Nil then 0 end end\n\
         print(classify(nil))"
    ));
}

#[test]
fn a_sum_type_test_cannot_name_a_member_inside_a_named_union_member() {
    assert_error_contains(
        &format!(
            "{SHAPE}fun f(value: Shape | Nil): Int64 do \
             if value is Shape.Circle(circle) then circle.radius \
             elseif value is Nil then 0 end end"
        ),
        "a type test on an inline sum names exactly one direct member",
    );
}

#[test]
fn direct_values_and_contextual_nil_inject_into_an_expected_sum() {
    let program = assert_checks(
        "let present: UInt8 | Nil = 1u8\nlet absent: UInt8 | Nil = nil\nprint(0)",
    );
    let TStmt::Let { value, .. } = &program.body.statements[0] else {
        panic!("expected a declaration");
    };
    assert!(matches!(
        value,
        TExpr::InjectSum {
            member: Ty::UInt8,
            ..
        }
    ));
    let TStmt::Let { value, .. } = &program.body.statements[1] else {
        panic!("expected a declaration");
    };
    assert!(matches!(
        value,
        TExpr::InjectSum {
            member: Ty::Nil,
            ..
        }
    ));
}

#[test]
fn an_exact_member_match_wins_over_widening() {
    let program = assert_checks("let x: Dec64 | Int64 = 1\nprint(0)");
    let TStmt::Let { value, .. } = &program.body.statements[0] else {
        panic!("expected a declaration");
    };
    assert!(matches!(
        value,
        TExpr::InjectSum {
            member: Ty::Int64,
            ..
        }
    ));
}

#[test]
fn an_int64_value_widens_into_the_sums_dec64_member() {
    let program = assert_checks("let x: Dec64 | Nil = 1\nprint(0)");
    let TStmt::Let { value, .. } = &program.body.statements[0] else {
        panic!("expected a declaration");
    };
    let TExpr::InjectSum { member, value, .. } = value else {
        panic!("expected a sum injection");
    };
    assert_eq!(*member, Ty::Dec64);
    assert!(matches!(**value, TExpr::Cast(_, Ty::Dec64)));
}

#[test]
fn rejects_a_value_with_no_matching_sum_member() {
    assert_error_contains("let x: Bool | UInt8 = 1.5", "found 'Dec64'");
}

#[test]
fn a_named_unions_member_value_does_not_directly_inject_into_an_inline_sum() {
    assert_error_contains(
        &format!("{SHAPE}let combined: Shape | Nil = Shape.Circle(radius: 1)"),
        "found 'Shape.Circle'",
    );
    assert_checks(&format!(
        "{SHAPE}let shape: Shape = Shape.Circle(radius: 1)\n\
         let combined: Shape | Nil = shape\nprint(0)"
    ));
}

#[test]
fn sum_to_sum_assignment_requires_identical_member_sets() {
    assert_checks("let a: UInt8 | Nil = nil\nlet b: UInt8 | Nil = a\nprint(0)");
    assert_error_contains(
        "let narrow: UInt8 | Nil = nil\nlet wide: Bool | Nil | UInt8 = narrow",
        "expected 'Bool | Nil | UInt8', found 'Nil | UInt8'",
    );
}

#[test]
fn is_tests_bind_the_exact_member_and_support_exhaustive_chains() {
    let program = assert_checks(
        "fun describe(value: UInt8 | Nil): UInt8 do \
         if value is UInt8(byte) then byte elseif value is Nil then 0u8 end end\n\
         print(describe(nil))",
    );
    let result = func(&program, "describe")
        .body
        .result
        .as_ref()
        .expect("describe produces a value");
    let TExpr::If(form) = result else {
        panic!("expected a value-form if");
    };
    assert!(form.exhaustive);
    assert!(form.else_branch.is_none());
    let TCondition::SumTest(first) = &form.arms[0].0 else {
        panic!("expected a sum type test");
    };
    assert_eq!(first.member, Ty::UInt8);
    assert_eq!(first.binding.as_ref().map(|(_, ty)| *ty), Some(Ty::UInt8));
}

#[test]
fn a_non_exhaustive_sum_chain_without_an_else_is_rejected() {
    assert_error_contains(
        "fun describe(value: UInt8 | Nil): UInt8 do \
         if value is UInt8(byte) then byte end end",
        "does not handle Nil",
    );
}

#[test]
fn a_duplicate_sum_branch_is_rejected() {
    assert_error_contains(
        "fun describe(value: UInt8 | Nil): UInt8 do \
         if value is UInt8(byte) then byte \
         elseif value is UInt8(other) then other \
         elseif value is Nil then 0u8 end end",
        "'UInt8' is already handled by an earlier branch",
    );
}

#[test]
fn an_exhaustive_sum_chain_rejects_a_redundant_else() {
    assert_error_contains(
        "fun describe(value: UInt8 | Nil): UInt8 do \
         if value is UInt8(byte) then byte \
         elseif value is Nil then 0u8 \
         else 1u8 end end",
        "already covers every direct member",
    );
}

#[test]
fn a_sum_type_test_cannot_name_a_nonmember() {
    assert_error_contains(
        "fun f(value: UInt8 | Nil): Int64 do \
         if value is Bool(b) then 1 elseif value is Nil then 0 end end",
        "'Bool' is not a direct member of",
    );
}

#[test]
fn nil_cannot_be_bound_in_a_sum_type_test() {
    assert_error_contains(
        "fun f(value: UInt8 | Nil): UInt8 do \
         if value is UInt8(byte) then byte elseif value is Nil(x) then 0u8 end end",
        "'Nil' carries no value, so it cannot be bound by a type test",
    );
}

#[test]
fn an_expected_sum_permits_different_branch_types_without_synthesis() {
    assert_checks(
        "fun maybe_byte(found: Bool): UInt8 | Nil do \
         if found then 1u8 else nil end end\n\
         print(0)",
    );
}

#[test]
fn sums_support_equality_when_every_member_does() {
    assert_checks(
        "let a: UInt8 | Nil = nil\nlet b: UInt8 | Nil = 1u8\nprint(a == b)\nprint(a != b)",
    );
}

#[test]
fn a_sum_value_compares_against_contextual_nil() {
    assert_checks("let a: UInt8 | Nil = 1u8\nprint(a == nil)");
}

#[test]
fn unsupported_operations_on_a_whole_sum_are_rejected() {
    let base = "let a: UInt8 | Nil = nil\nlet b: UInt8 | Nil = nil\n";
    assert_error_contains(
        &format!("{base}print(a < b)"),
        "operands must be two numbers of the same type",
    );
    assert_error_contains(
        &format!("{base}print(a + b)"),
        "operands must be two numbers of the same type",
    );
    assert_error_contains(
        &format!("{base}print(a.value)"),
        "is not a struct, so it has no field",
    );
    assert_error_contains(
        &format!("{base}print(a)"),
        "'print' does not support the inline sum type",
    );
}

#[test]
fn an_inline_sum_cannot_cross_a_rust_bridge() {
    assert_error_contains(
        "extern rust \"snacc_user_maybe\" fun maybe(): UInt8 | Nil\nprint(0)",
        "no inline sum may cross a Rust bridge",
    );
}

#[test]
fn a_struct_field_may_be_an_inline_sum() {
    assert_checks(
        "type CacheEntry is struct value: UInt8 | Nil, end\n\
         let empty: CacheEntry = CacheEntry(value: nil)\n\
         let full: CacheEntry = CacheEntry(value: 1u8)\nprint(0)",
    );
}

#[test]
fn a_box_type_resolves_as_a_field_parameter_local_and_result_type() {
    let program = assert_checks(
        "type Point is struct x: Int64, end\n\
         type Holder is struct value: Box<Point>, end\n\
         fun make(value: Box<Point>): Box<Point> do let local: Box<Point> = value local end\n\
         print(0)",
    );
    let holder = program
        .types
        .iter()
        .find(|def| def.name() == "Holder")
        .expect("Holder exists");
    assert!(
        matches!(holder.fields().unwrap()[0].1, Ty::Box(_)),
        "Holder.value should resolve to a 'Ty::Box'"
    );
    let make = &func(&program, "make");
    assert!(
        matches!(make.params[0].ty, Ty::Box(_)),
        "make's parameter should resolve to a 'Ty::Box'"
    );
    assert!(
        matches!(make.result, Some(Ty::Box(_))),
        "make's result should resolve to a 'Ty::Box'"
    );
}

#[test]
fn rejects_the_wrong_number_of_box_type_arguments() {
    assert_rejected_by_parser("let value: Box = box(1)");
    assert_rejected_by_parser("let value: Box<> = box(1)");
    assert_rejected_by_parser("let value: Box<Int64, Bool> = box(1)");
}

#[test]
fn a_reference_cannot_be_a_box_pointee() {
    assert_rejected_by_parser("let value: Box<Ref<Int64>> = box(1)");
}

#[test]
fn a_no_result_calls_result_cannot_be_boxed() {
    assert_error_contains(
        "fun log(value: Int64) do print(value) end\n\
         let boxed: Box<Int64> = box(log(1))\nprint(0)",
        "declares no result, so its call cannot be used as a value",
    );
}

#[test]
fn nested_box_is_accepted() {
    assert_checks("let value: Box<Box<Int64>> = box(box(1))\nprint(0)");
}

#[test]
fn a_box_edge_breaks_an_otherwise_infinite_recursive_union_layout() {
    assert_checks(
        "type IntLink is union | Empty | Item is struct value: Int64, \
         next: Box<IntLink>, end end\nprint(0)",
    );
    assert_error_contains(
        "type IntLink is union | Empty | Item is struct value: Int64, \
         next: IntLink, end end\nprint(0)",
        "has an infinite value layout",
    );
}

#[test]
fn a_box_field_makes_its_struct_move_only_through_the_shared_pipeline() {
    let source = "type Holder is struct value: Box<Int64>, end\nprint(0)";
    assert_checks(source);
    let syntax =
        parse(source).unwrap_or_else(|d| panic!("{source} should parse: {d:?}"));
    let mut errors = Vec::new();
    let collected = collect(&syntax, &mut errors);
    assert!(
        errors.is_empty(),
        "unexpected collection errors: {errors:?}"
    );
    let holder = collected.types.top_level("Holder").expect("Holder exists");
    assert!(
        collected.types.is_move_only(Ty::User(holder)),
        "a struct with a 'Box<T>' field must be move-only"
    );
}

#[test]
fn box_is_reserved_and_cannot_be_a_declared_name() {
    assert_rejected_by_parser("type Box is Int64");
    assert_rejected_by_parser("fun Box(): Int64 do 1 end");
    assert_rejected_by_parser("fun f(Box: Int64): Int64 do 1 end");
    assert_rejected_by_parser("fun f(): Int64 do let Box: Int64 = 1 1 end");
}

#[test]
fn box_and_every_type_transitively_containing_one_are_rejected_at_the_bridge() {
    assert_error_contains(
        "extern rust \"snacc_user_take\" fun take(value: Box<Int64>)",
        "is a box type; 'Box<T>' and every type transitively containing one",
    );
    assert_error_contains(
        "extern rust \"snacc_user_make\" fun make(): Box<Int64>",
        "is a box type; 'Box<T>' and every type transitively containing one",
    );
    assert_error_contains(
        "type Holder is struct value: Box<Int64>, end\n\
         extern rust \"snacc_user_take\" fun take(value: Holder)",
        "is a user-defined type",
    );
}

#[test]
fn using_a_moved_box_again_is_rejected() {
    assert_error_contains(
        "let first: Box<Int64> = box(1)\n\
         let second: Box<Int64> = first\n\
         let third: Box<Int64> = first\n\
         print(0)",
        "is already moved",
    );
}

#[test]
fn a_move_inside_one_if_arm_with_no_later_use_is_accepted() {
    assert_checks(
        "let first: Box<Int64> = box(1)\n\
         if true then\n\
         \x20   let second: Box<Int64> = first\n\
         end\n\
         print(0)",
    );
}

#[test]
fn a_move_inside_one_if_arm_is_unavailable_after_the_merge() {
    assert_error_contains(
        "let first: Box<Int64> = box(1)\n\
         if true then\n\
         \x20   let second: Box<Int64> = first\n\
         end\n\
         let third: Box<Int64> = first\n\
         print(0)",
        "is already moved",
    );
}

#[test]
fn a_move_on_every_if_else_arm_is_unavailable_after_the_merge() {
    assert_error_contains(
        "let first: Box<Int64> = box(1)\n\
         if true then\n\
         \x20   let second: Box<Int64> = first\n\
         else\n\
         \x20   let third: Box<Int64> = first\n\
         end\n\
         let fourth: Box<Int64> = first\n\
         print(0)",
        "is already moved",
    );
}

#[test]
fn reassigning_a_moved_mutable_local_restores_availability() {
    assert_checks(
        "let mut first: Box<Int64> = box(1)\n\
         let second: Box<Int64> = first\n\
         first = box(2)\n\
         let third: Box<Int64> = first\n\
         print(0)",
    );
}

#[test]
fn a_move_inside_a_while_body_that_would_double_move_is_rejected() {
    assert_error_contains(
        "let first: Box<Int64> = box(1)\n\
         while true do\n\
         \x20   let second: Box<Int64> = first\n\
         end\n\
         print(0)",
        "already moved",
    );
}

#[test]
fn a_while_body_that_reinitializes_after_moving_is_accepted() {
    assert_checks(
        "let mut first: Box<Int64> = box(1)\n\
         while true do\n\
         \x20   let second: Box<Int64> = first\n\
         \x20   first = box(2)\n\
         end\n\
         print(0)",
    );
}

#[test]
fn copyable_values_may_be_used_repeatedly_without_move_tracking() {
    assert_checks(
        "let first: Int64 = 1\n\
         let second: Int64 = first\n\
         let third: Int64 = first\n\
         print(third)",
    );
}


#[test]
fn ordered_records_with_literal_lets_check() {
    let program = assert_checks(
        "type Leaf is struct value: Int64, end\n\
         type Pair is struct a: Leaf, b: Box<Pair>, end\n\
         let x: Int64 = 1\nlet y: Bool = true",
    );
    assert!(program.funcs.is_empty());
}
