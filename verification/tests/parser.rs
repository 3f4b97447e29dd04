//! Syntax: blocks, declarations, places, type tests, references and sums.

use snacc_compiler::ast::{
    BlockElement, Condition, ExternFunc, Func, ParamMode, PlaceRootName, Program, TypeBody, TypeName, TypeRef,
};
use snacc_compiler::parse as parse_source;

fn parse(source: &str) -> Program {
    parse_source(source).unwrap_or_else(|d| panic!("{source} should parse: {d:?}"))
}

fn assert_parses(source: &str) {
    parse(source);
}

fn assert_rejects(source: &str) {
    assert!(parse_source(source).is_err(), "expected a parse error for: {source}");
}

fn parse_errors(source: &str) -> Vec<String> {
    match parse_source(source) {
        Ok(_) => Vec::new(),
        Err(d) => d.items.iter().map(|item| item.message.clone()).collect(),
    }
}

fn assert_parse_error_contains(source: &str, needle: &str) {
    let errors = parse_errors(source);
    assert!(
        errors.iter().any(|error| error.contains(needle)),
        "expected a parse error containing {needle:?} for {source}, got: {errors:?}"
    );
}

fn builtin(ty: &TypeRef) -> TypeName {
    match ty {
        TypeRef::Builtin(name, _) => *name,
        other => panic!("expected a built-in type, got {other:?}"),
    }
}

fn func<'a>(program: &'a Program, name: &str) -> &'a Func {
    program.funcs.iter().find(|f| f.name == name).unwrap_or_else(|| panic!("no function {name}"))
}

fn ext<'a>(program: &'a Program, name: &str) -> &'a ExternFunc {
    program.externs.iter().find(|f| f.name == name).unwrap_or_else(|| panic!("no bridge {name}"))
}

fn type_text(ty: &TypeRef) -> String {
    match ty {
        TypeRef::Builtin(name, _) => format!("{name:?}"),
        TypeRef::Named(segments, _) => segments.iter().map(|(s, _)| s.clone()).collect::<Vec<_>>().join("."),
        TypeRef::Sum(members, _) => members.iter().map(type_text).collect::<Vec<_>>().join(" | "),
        TypeRef::Box(inner, _) => format!("Box<{}>", type_text(inner)),
    }
}

fn sum_member_names(ty: &TypeRef) -> Vec<String> {
    match ty {
        TypeRef::Sum(members, _) => members.iter().map(type_text).collect(),
        other => panic!("expected an inline sum type, got {other:?}"),
    }
}

fn let_ty(program: &Program, index: usize) -> &TypeRef {
    let BlockElement::Let { ty, .. } = &program.body.elements[index].kind else {
        panic!("expected a variable declaration");
    };
    ty
}

#[test]
fn parses_lua_style_blocks_and_conditions() {
    assert_parses(
        "fun isfoo(a: Int64): Bool do\n    a == 0\nend\n\nif x > 0 then\n    \"yes\"\nelseif x == 0 then \"maybe\"\nelse\n    \"no\"\nend",
    );
}

#[test]
fn newlines_are_not_significant() {
    assert_parses(
        "fun isfoo(a: Int64): Bool do a == 0 end if x > 0 then \"yes\" elseif x == 0 then \"maybe\" else \"no\" end",
    );
}

#[test]
fn parses_while_as_a_statement() {
    let program = parse("while false do print(1) end print(2)");
    assert_eq!(program.body.elements.len(), 2);
    assert!(matches!(program.body.elements[0].kind, BlockElement::While { .. }));
    assert!(matches!(program.body.elements[1].kind, BlockElement::Expr(_)));
}

#[test]
fn rejects_while_in_an_expression_position() {
    assert_rejects("print(while false do 7 end)");
    assert_rejects("let x: Int64 = while false do 7 end");
    assert_rejects("1 + while false do 7 end");
}

#[test]
fn rejects_if_in_an_expression_position() {
    assert_rejects("print(if true then 1 else 2 end)");
    assert_rejects("let x: Int64 = if true then 1 else 2 end");
}

#[test]
fn parses_break_inside_a_while_body() {
    let program = parse("while true do break end");
    let BlockElement::While { body, .. } = &program.body.elements[0].kind else {
        panic!("expected a while statement");
    };
    assert_eq!(body.elements.len(), 1);
    assert!(matches!(body.elements[0].kind, BlockElement::Break(_)));
}

#[test]
fn parses_a_function_without_a_result_type() {
    let program = parse("fun announce(value: Int64) do print(value) end");
    assert!(func(&program, "announce").ret.is_none());
}

#[test]
fn parses_a_function_with_a_result_type() {
    let program = parse("fun double(value: Int64): Int64 do value * 2 end");
    assert_eq!(builtin(func(&program, "double").ret.as_ref().unwrap()), TypeName::Int64);
}

#[test]
fn parses_a_bridge_without_a_result_type() {
    let program = parse("extern rust \"snacc_user_log\" fun log(value: Int64)");
    assert!(ext(&program, "log").ret.is_none());
}

#[test]
fn parses_typed_rust_bridge_declaration() {
    let program = parse(
        "extern rust \"snacc_user_double\" fun rust_double(value: Int64): Int64\nprint(rust_double(2))",
    );
    assert_eq!(builtin(ext(&program, "rust_double").ret.as_ref().unwrap()), TypeName::Int64);
    assert_eq!(ext(&program, "rust_double").symbol, "snacc_user_double");
}

#[test]
fn parses_an_if_without_an_else() {
    let program = parse("if true then print(1) end");
    assert_eq!(program.body.elements.len(), 1);
    let BlockElement::If(form) = &program.body.elements[0].kind else {
        panic!("expected an if form");
    };
    assert_eq!(form.arms.len(), 1);
    assert!(form.else_branch.is_none());
}

#[test]
fn parses_an_elseif_chain_as_one_block_element() {
    let program = parse("if x > 0 then print(1) elseif x == 0 then print(2) else print(3) end");
    let BlockElement::If(form) = &program.body.elements[0].kind else {
        panic!("expected an if form");
    };
    assert_eq!(form.arms.len(), 2);
    assert!(form.else_branch.is_some());
}

#[test]
fn parses_declarations_and_assignments() {
    let program = parse("let mut total: Int64 = 1 total = total + 1 print(total)");
    assert_eq!(program.body.elements.len(), 3);
    assert!(matches!(program.body.elements[0].kind, BlockElement::Let { mutable: true, .. }));
    assert!(matches!(program.body.elements[1].kind, BlockElement::Assign { .. }));
}

#[test]
fn a_leading_name_only_begins_an_assignment_on_a_single_equals() {
    let program = parse("x == 1");
    assert!(matches!(program.body.elements[0].kind, BlockElement::Expr(_)));
    let program = parse("x = 1");
    assert!(matches!(program.body.elements[0].kind, BlockElement::Assign { .. }));
}

#[test]
fn one_line_and_multi_line_block_elements_parse_identically() {
    let one_line = parse("let x: Int64 = 10 print(x)");
    let multi_line = parse("let x: Int64 = 10\nprint(x)");
    assert_eq!(one_line.body.elements.len(), 2);
    assert_eq!(
        format!("{:?}", one_line.body.elements[0].kind),
        format!("{:?}", multi_line.body.elements[0].kind)
    );
}

#[test]
fn parses_every_new_type_name_in_every_type_position() {
    for (name, expected) in [
        ("UInt8", TypeName::UInt8),
        ("UInt16", TypeName::UInt16),
        ("UInt32", TypeName::UInt32),
        ("UInt64", TypeName::UInt64),
        ("Float32", TypeName::Float32),
    ] {
        let source = format!(
            "extern rust \"snacc_user_edge\" fun edge(value: {name}): {name}\n\
             fun identity(value: {name}): {name} do value end"
        );
        let program = parse(&source);
        assert_eq!(builtin(&func(&program, "identity").args[0].ty), expected);
        assert_eq!(builtin(func(&program, "identity").ret.as_ref().unwrap()), expected);
        assert_eq!(builtin(&ext(&program, "edge").args[0].ty), expected);
        assert_eq!(builtin(ext(&program, "edge").ret.as_ref().unwrap()), expected);
    }
    let program = parse("let byte: UInt8 = 1u8 let ratio: Float32 = 0.5f32");
    assert_eq!(builtin(let_ty(&program, 0)), TypeName::UInt8);
}

#[test]
fn rejects_semicolons() {
    assert_rejects("while false do print(1) end; print(2)");
    assert_rejects("let x: Int64 = 1; print(x)");
}

#[test]
fn parses_a_represented_type_declaration() {
    let program = parse("type UserId is Int64");
    assert_eq!(program.types.len(), 1);
    assert_eq!(program.types[0].name, "UserId");
    assert!(matches!(program.types[0].body, TypeBody::Represented(_)));
}

#[test]
fn parses_a_struct_with_and_without_a_trailing_comma() {
    for source in [
        "type Point is struct x: Dec64, y: Dec64, end",
        "type Point is struct x: Dec64, y: Dec64 end",
        "type Point is struct\n    x: Dec64\n    y: Dec64\nend",
    ] {
        let program = parse(source);
        let TypeBody::Struct(fields) = &program.types[0].body else {
            panic!("expected a struct body for {source}");
        };
        assert_eq!(fields.len(), 2, "{source}");
        assert_eq!(fields[0].name, "x");
        assert_eq!(fields[1].name, "y");
    }
}

#[test]
fn parses_an_empty_struct() {
    let program = parse("type Marker is struct end");
    let TypeBody::Struct(fields) = &program.types[0].body else {
        panic!("expected a struct body");
    };
    assert!(fields.is_empty());
}

#[test]
fn parses_bare_inline_and_nil_union_members() {
    let program = parse(
        "type Shape is union\n\
         | Circle is struct radius: Int64, end\n\
         | Point\n\
         | Nil\n\
         end",
    );
    let TypeBody::Union(members) = &program.types[0].body else {
        panic!("expected a union body");
    };
    assert_eq!(members.len(), 3);
    assert_eq!(members[0].fields.len(), 1);
    assert!(members[1].fields.is_empty() && !members[1].nil);
    assert!(members[2].nil && members[2].name == "Nil");
}

#[test]
fn parses_top_level_and_member_method_receivers() {
    let program = parse(
        "method Point.length(): Dec64 do 1.0 end\n\
         method Shape.Circle.area(): Int64 do 1 end",
    );
    assert_eq!(program.methods.len(), 2);
    let path = &program.methods[0].path;
    assert_eq!(path.len(), 2, "one receiver segment and the name");
    assert_eq!(path[1].0, "length");
    let path = &program.methods[1].path;
    assert_eq!(
        path[..path.len() - 1].iter().map(|(s, _)| s.as_str()).collect::<Vec<_>>(),
        vec!["Shape", "Circle"]
    );
    assert_eq!(path[path.len() - 1].0, "area");
}

#[test]
fn parses_named_constructor_arguments_and_nested_postfix_chains() {
    let program = parse("print(Point(x: 3.0, y: 4.0).x)\nprint(a.b.c(1).d)");
    assert_eq!(program.body.elements.len(), 2);
}

#[test]
fn parses_field_assignment_through_a_field_path() {
    let program = parse("entity.position.x = 1.0");
    let BlockElement::Assign { place, .. } = &program.body.elements[0].kind else {
        panic!("expected an assignment");
    };
    assert_eq!(place.fields.len(), 2);
    assert!(matches!(&place.root, PlaceRootName::Name(name) if name == "entity"));
}

#[test]
fn parses_whole_self_assignment_inside_a_method() {
    let program = parse("method Point.reset() do self = Point(x: 0.0, y: 0.0) end");
    let BlockElement::Assign { place, .. } = &program.methods[0].body.elements[0].kind else {
        panic!("expected an assignment");
    };
    assert!(matches!(place.root, PlaceRootName::SelfRef));
    assert!(place.fields.is_empty());
}

#[test]
fn parses_type_tests_with_and_without_a_binding() {
    let program = parse("if shape is Shape.Circle(circle) then print(1) elseif shape is Nil then print(2) end");
    let BlockElement::If(form) = &program.body.elements[0].kind else {
        panic!("expected an if form");
    };
    let Condition::TypeTest(first) = &form.arms[0].0 else {
        panic!("expected a type test");
    };
    assert_eq!(first.member.iter().map(|(s, _)| s.as_str()).collect::<Vec<_>>(), vec!["Shape", "Circle"]);
    assert_eq!(first.binding.as_ref().map(|(name, _)| name.as_str()), Some("circle"));
    let Condition::TypeTest(second) = &form.arms[1].0 else {
        panic!("expected a type test");
    };
    assert_eq!(second.member[0].0, "Nil");
    assert!(second.binding.is_none());
}

#[test]
fn a_comparison_still_parses_as_an_ordinary_condition() {
    let program = parse("if x > 0 then print(1) end");
    let BlockElement::If(form) = &program.body.elements[0].kind else {
        panic!("expected an if form");
    };
    assert!(matches!(form.arms[0].0, Condition::Expr(_)));
}

#[test]
fn parses_a_qualified_type_in_every_type_position() {
    assert_parses(
        "type Shape is union | Circle is struct radius: Int64, end end\n\
         type Holder is struct shape: Shape.Circle, end\n\
         fun take(value: Shape.Circle): Shape.Circle do value end\n\
         let held: Shape.Circle = Shape.Circle(radius: 1)",
    );
}

#[test]
fn parses_a_builtin_type_name_as_an_unwrapping_call_head() {
    let program = parse("type UserId is Int64\nlet id: UserId = UserId(1)\nprint(Int64(id))");
    assert_eq!(program.body.elements.len(), 2);
}

#[test]
fn rejects_malformed_declaration_delimiters() {
    for source in [
        "type Point is struct x: Dec64,",
        "type Shape is union | end",
        "type Shape is union end",
        "method Point.length(): Dec64 do 1.0",
        "type is Int64",
        "method () do end",
    ] {
        assert_rejects(source);
    }
}

#[test]
fn mut_is_reserved_outside_a_declaration() {
    assert_rejects("fun f(mut value: Int64): Int64 do value end");
    assert_rejects("let mut: Int64 = 1");
}

#[test]
fn ref_is_a_reserved_word_and_not_an_identifier() {
    assert_rejects("let Ref: Int64 = 1");
    assert_rejects("fun Ref(value: Int64): Int64 do value end");
}

#[test]
fn parses_a_reference_parameter_in_every_permitted_declaration() {
    for source in [
        "fun add_into(x: Int64, y: Int64, result: Ref<Int64>) do result = x + y end",
        "type Point is struct x: Dec64, end\n\
         method Point.give(other: Ref<Dec64>) do other = self.x end",
        "extern rust \"snacc_user_bump\" fun bump(value: Ref<Int64>)",
    ] {
        assert_parses(source);
    }
}

#[test]
fn a_reference_parameter_records_its_mode_and_referent_type() {
    let program = parse("fun f(a: Int64, b: Ref<Int64>) do b = a end");
    let args = &func(&program, "f").args;
    assert_eq!(args[0].mode, ParamMode::Value);
    assert_eq!(args[1].mode, ParamMode::Reference);
    assert_eq!(builtin(&args[1].ty), TypeName::Int64);
}

#[test]
fn a_user_defined_referent_keeps_its_written_path() {
    let program = parse(
        "type Shape is union | Circle is struct radius: Int64, end | Nil end\n\
         fun grow(shape: Ref<Shape.Circle>) do shape.radius = 1 end",
    );
    let TypeRef::Named(segments, _) = &func(&program, "grow").args[0].ty else {
        panic!("expected a qualified referent path");
    };
    assert_eq!(segments.iter().map(|(s, _)| s.as_str()).collect::<Vec<_>>(), vec!["Shape", "Circle"]);
}

#[test]
fn rejects_a_reference_in_every_other_type_position() {
    for source in [
        "fun f(value: Int64): Ref<Int64> do value end",
        "method Point.f(): Ref<Int64> do 1 end",
        "extern rust \"snacc_user_f\" fun f(value: Int64): Ref<Int64>",
        "let saved: Ref<Int64> = 1",
        "type Holder is struct value: Ref<Int64>, end",
        "type Alias is Ref<Int64>",
        "type Shape is union | Circle is struct radius: Ref<Int64>, end | Nil end",
    ] {
        assert_parse_error_contains(source, "only valid as the direct type of a function");
    }
}

#[test]
fn rejects_a_nested_reference() {
    assert_parse_error_contains("fun f(value: Ref<Ref<Int64>>) do print(1) end", "cannot contain another reference");
}

#[test]
fn rejects_an_authored_self_annotation() {
    assert_rejects("method Point.f(self: Ref<Point>) do print(1) end");
}

#[test]
fn ordered_comparisons_still_parse_as_expressions() {
    let program = parse("print(a < b) print(a > b) print(a <= b) print(a >= b)");
    assert_eq!(program.body.elements.len(), 4);
}

#[test]
fn parses_an_inline_sum_type_in_every_value_type_position() {
    for source in [
        "type Point is struct x: Dec64, end\nfun read(): UInt8 | Nil do nil end",
        "type Point is struct x: Dec64, end\nfun take(value: UInt8 | Nil) do print(1) end",
        "type Point is struct x: Dec64, end\nlet result: UInt8 | Nil = nil",
        "type Point is struct x: Dec64, end\ntype Holder is struct value: UInt8 | Nil, end",
        "type Point is struct x: Dec64, end\n\
         extern rust \"snacc_user_maybe\" fun maybe(): UInt8 | Nil",
        "type Point is struct x: Dec64, end\n\
         method Point.length(): UInt8 | Nil do nil end",
    ] {
        assert_parses(source);
    }
}

#[test]
fn a_sum_type_records_every_member_in_source_order() {
    let program = parse("let result: UInt8 | Bool | Nil = nil");
    assert_eq!(sum_member_names(let_ty(&program, 0)), vec!["UInt8", "Bool", "Nil"]);
}

#[test]
fn a_single_member_never_wraps_in_a_sum_node() {
    let program = parse("let value: (UInt8) = 1u8");
    assert_eq!(builtin(let_ty(&program, 0)), TypeName::UInt8);
}

#[test]
fn parses_parenthesized_grouping_with_a_nested_sum_member() {
    let program = parse("let value: (UInt8 | Bool) | Nil = nil");
    let TypeRef::Sum(members, _) = let_ty(&program, 0) else {
        panic!("expected an inline sum type");
    };
    assert_eq!(members.len(), 2);
    assert_eq!(sum_member_names(&members[0]), vec!["UInt8", "Bool"]);
    assert_eq!(type_text(&members[1]), "Nil");
}

#[test]
fn whitespace_around_the_sum_operator_has_no_significance() {
    let tight = parse("let value: UInt8|Bool|Nil = nil");
    let spaced = parse("let value: UInt8 | Bool | Nil = nil");
    assert_eq!(sum_member_names(let_ty(&tight, 0)), sum_member_names(let_ty(&spaced, 0)));
}

#[test]
fn rejects_malformed_sum_separators() {
    for source in [
        "let value: | UInt8 = 1u8",
        "let value: UInt8 | = 1u8",
        "let value: UInt8 || Bool = nil",
        "let value: () = 1u8",
    ] {
        assert_rejects(source);
    }
}

#[test]
fn rejects_a_reference_as_a_sum_member() {
    for source in ["let value: Ref<UInt8> | Nil = nil", "fun f(value: UInt8 | Ref<Nil>) do print(1) end"] {
        assert_rejects(source);
    }
}

#[test]
fn a_reference_referent_may_be_a_sum_type() {
    assert_parses("fun replace(value: Ref<UInt8 | Nil>) do value = nil end");
}

#[test]
fn the_sum_operator_never_parses_as_an_expression_operator() {
    assert_rejects("print(1 | 2)");
    assert_rejects("let x: Int64 = 1 | 2");
}

#[test]
fn parses_a_type_test_naming_a_builtin_direct_member() {
    let program = parse(
        "fun show(value: UInt8 | Nil) do \
         if value is UInt8(byte) then print(1) elseif value is Nil then print(2) end end",
    );
    let BlockElement::If(form) = &func(&program, "show").body.elements[0].kind else {
        panic!("expected an if form");
    };
    let Condition::TypeTest(first) = &form.arms[0].0 else {
        panic!("expected a type test");
    };
    assert_eq!(first.member[0].0, "UInt8");
    assert_eq!(first.binding.as_ref().map(|(name, _)| name.as_str()), Some("byte"));
    let Condition::TypeTest(second) = &form.arms[1].0 else {
        panic!("expected a type test");
    };
    assert_eq!(second.member[0].0, "Nil");
    assert!(second.binding.is_none());
}

#[test]
fn a_repeated_function_name_is_a_parse_error() {
    assert_rejects("fun f() do print(1) end fun f() do print(2) end");
}

#[test]
fn parse_errors_are_reported_in_the_parse_phase() {
    let diagnostics = parse_source("let = 1").err().expect("a declaration without a name is refused");
    let first = diagnostics.first().expect("a diagnostic");
    assert_eq!(first.phase, snacc_compiler::DiagnosticPhase::Parse);
}
