use ric3::aig::AigEdge;
use ric3::run::{keep_nonconstant, model_format, property_plan, result_message, str_equals, ModelFormat};
use ric3::text::{push_decimal, push_signed_decimal, split_spaces_exec};

#[test]
fn model_formats() {
    assert_eq!(model_format(Some("aig")), ModelFormat::Aiger);
    assert_eq!(model_format(Some("aag")), ModelFormat::Aiger);
    assert_eq!(model_format(Some("btor")), ModelFormat::Btor);
    assert_eq!(model_format(Some("btor2")), ModelFormat::Btor);
    assert_eq!(model_format(Some("blif")), ModelFormat::Unsupported);
    assert_eq!(model_format(None), ModelFormat::Unsupported);
    assert!(str_equals("ab", "ab"));
    assert!(!str_equals("ab", "abc"));
}

#[test]
fn property_plans() {
    let p = property_plan(2, 0, false);
    assert!(p.move_outputs && !p.ignore_outputs && !p.no_property && p.compress);
    let p = property_plan(2, 1, false);
    assert!(!p.move_outputs && p.ignore_outputs && !p.no_property && !p.compress);
    let p = property_plan(0, 0, false);
    assert!(!p.move_outputs && !p.ignore_outputs && p.no_property && !p.compress);
    let p = property_plan(3, 0, true);
    assert!(!p.move_outputs && !p.ignore_outputs && p.no_property);
    let p = property_plan(1, 0, false);
    assert!(p.move_outputs && !p.compress && !p.no_property);
}

#[test]
fn result_messages() {
    assert_eq!(result_message(Some(true)), "result: safe");
    assert_eq!(result_message(Some(false)), "result: unsafe");
    assert_eq!(result_message(None), "result: unknown");
}

#[test]
fn constant_true_constraints_dropped() {
    let cs = vec![
        AigEdge { id: 0, complement: true },
        AigEdge { id: 3, complement: true },
        AigEdge { id: 0, complement: false },
        AigEdge { id: 0, complement: true },
    ];
    assert_eq!(
        keep_nonconstant(&cs),
        vec![AigEdge { id: 3, complement: true }, AigEdge { id: 0, complement: false }]
    );
}

#[test]
fn decimal_texts() {
    let mut s = String::new();
    push_decimal(&mut s, 0);
    s.push(' ');
    push_decimal(&mut s, 1234567890123);
    s.push(' ');
    push_signed_decimal(&mut s, -2147483648);
    assert_eq!(s, "0 1234567890123 -2147483648");
}

#[test]
fn split_on_spaces() {
    assert_eq!(split_spaces_exec("-e ic3 --step 1"), vec!["-e", "ic3", "--step", "1"]);
    assert_eq!(split_spaces_exec(""), vec![""]);
    assert_eq!(split_spaces_exec(" a  b "), vec!["", "a", "", "b", ""]);
}
