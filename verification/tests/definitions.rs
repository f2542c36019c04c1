use complex_plot::complex_func::complex_definition::{ComplexDefinition, Evaluation};
use complex_plot::complex_func::{CalculationError, ComplexNode, Number};

fn value(re: &str) -> ComplexNode {
    ComplexNode::fromc(Number { re: re.to_string(), im: "0".to_string() })
}

#[test]
fn numeric_definition_reads_back() {
    let mut d: ComplexDefinition<u8> = ComplexDefinition::new();
    d.define_numeric("x", value("2.5"));
    assert!(d.contains("x"));
    assert!(d.is_variable("x"));
    assert!(!d.is_function("x"));
    assert_eq!(d.get("x").unwrap().get_name(), "2.5");
    d.define_numeric("x", value("3"));
    assert_eq!(d.get("x").unwrap().get_name(), "3");
    assert_eq!(d.get_keys().len(), 1);
}

#[test]
fn undefined_name() {
    let d: ComplexDefinition<u8> = ComplexDefinition::new();
    assert!(!d.contains("y"));
    assert!(d.is_function("y"));
    match d.get("y") {
        Err(e @ CalculationError::ValueNotDefined(_)) => {
            assert_eq!(e.to_string(), "y is not defined as function/value");
            assert_eq!(e.description(), "CalculationError");
        }
        _ => panic!("expected ValueNotDefined"),
    }
}

#[test]
fn built_in_function_has_no_formula() {
    let mut d: ComplexDefinition<u8> = ComplexDefinition::new();
    d.define_naitive_function("ln", 7);
    assert!(d.contains("ln"));
    assert!(d.is_function("ln"));
    match d.get("ln") {
        Err(CalculationError::Unknown(m)) => {
            assert_eq!(m, "You can not get ln. Because it is built-in function or value.")
        }
        _ => panic!("expected Unknown"),
    }
    assert_eq!(d.to_string(), "ln:\n###NAITIVE CODE###\n");
}

#[test]
fn define_call_defines_function() {
    let mut d: ComplexDefinition<u8> = ComplexDefinition::new();
    d.define("exp(x)", "e^x");
    assert!(d.contains("exp"));
    assert!(d.is_function("exp"));
    assert_eq!(d.get("exp").unwrap().display_string(), "Pow_x\n|\ne");
    d.define("sqrt(x)", "x^(1/2)");
    assert_eq!(d.get("sqrt").unwrap().display_string(), "Pow_Div_2\n    |\n    1\n|\nx");
}

#[test]
fn define_word_defines_value() {
    let mut d: ComplexDefinition<u8> = ComplexDefinition::new();
    d.define("a", "1+2");
    assert!(d.is_variable("a"));
    assert_eq!(d.get("a").unwrap().display_string(), "Add_2\n|\n1");
    assert_eq!(d.to_string(), "a:\nAdd_2\n|\n1\n");
    d.remove("a");
    assert!(!d.contains("a"));
    d.remove("a");
    assert!(!d.contains("a"));
}

#[test]
fn function_definition_by_trees() {
    let mut d: ComplexDefinition<u8> = ComplexDefinition::new();
    let arg = *ComplexNode::parse("x").unwrap();
    let body = *ComplexNode::parse("x*x").unwrap();
    d.define_function("sq", arg, body);
    assert!(d.is_function("sq"));
    assert_eq!(d.get("sq").unwrap().get_name(), "Mul");
}

#[test]
fn taking_over_definitions() {
    let mut d: ComplexDefinition<u8> = ComplexDefinition::new();
    d.define_numeric("a", value("1"));
    d.define_numeric("b", value("2"));
    let mut e: ComplexDefinition<u8> = ComplexDefinition::new();
    e.define_numeric("b", value("20"));
    e.define_numeric("c", value("30"));
    d.define_from_definition(e);
    assert_eq!(d.get("a").unwrap().get_name(), "1");
    assert_eq!(d.get("b").unwrap().get_name(), "20");
    assert_eq!(d.get("c").unwrap().get_name(), "30");
    let mut keys = d.get_keys();
    keys.sort();
    assert_eq!(keys, vec!["a", "b", "c"]);
}

#[test]
fn copy_of_table() {
    let mut d: ComplexDefinition<u8> = ComplexDefinition::new();
    d.define_numeric("a", value("1"));
    d.define_naitive_function("f", 3);
    let c = d.clone();
    assert_eq!(c.get("a").unwrap().get_name(), "1");
    assert!(c.contains("f"));
    assert_eq!(c.get_keys().len(), 2);
}

#[test]
fn unknown_error_message() {
    let e = CalculationError::Unknown("x".to_string());
    assert_eq!(e.to_string(), "CalculationError : x");
}

#[test]
fn call_resolution() {
    let mut d: ComplexDefinition<u8> = ComplexDefinition::new();
    d.define("f(x,y)", "x*y");
    d.define_numeric("c", value("4"));
    d.define_naitive_function("g", 9);
    let args = *ComplexNode::parse("(1,2)").unwrap();
    match d.resolve_call("f", &args) {
        Ok(Evaluation::Apply(params, items, body)) => {
            assert_eq!(params, vec!["x".to_string(), "y".to_string()]);
            assert_eq!(items.len(), 2);
            assert_eq!(items[1].get_name(), "2");
            assert_eq!(body.get_name(), "Mul");
        }
        _ => panic!("expected a function"),
    }
    match d.resolve_call("c", &args) {
        Ok(Evaluation::Formula(v)) => assert_eq!(v.get_name(), "4"),
        _ => panic!("expected a value"),
    }
    match d.resolve_call("g", &args) {
        Ok(Evaluation::Native(f, a)) => {
            assert_eq!(f, 9);
            assert!(a.is_vec());
        }
        _ => panic!("expected a built-in function"),
    }
    assert!(matches!(d.resolve_call("h", &args), Err(CalculationError::ValueNotDefined(_))));
}

#[test]
fn standard_formulas_are_defined() {
    let mut d: ComplexDefinition<u8> = ComplexDefinition::new();
    d.define_standard_formulas();
    let drawn = |s: &str| ComplexNode::parse(s).unwrap().display_string();
    for (name, def) in [
        ("exp", "e^x"),
        ("cos", "(1/2)*(exp(i*x)+exp(-i*x))"),
        ("sin", "(1/2i)*(exp(i*x)-exp(-i*x))"),
        ("tan", "sin(x)/cos(x)"),
        ("sqrt", "x^(1/2)"),
        ("abs", "sqrt(norm(x))"),
        ("norm", "x*(real(x)-imaginary(x))"),
        ("to", "x*(180/PI)"),
    ] {
        assert!(d.contains(name), "{name}");
        assert!(d.is_function(name), "{name}");
        assert_eq!(d.get(name).unwrap().display_string(), drawn(def), "{name}");
    }
    assert_eq!(d.get("exp").unwrap().display_string(), "Pow_x\n|\ne");
    assert_eq!(d.get_keys().len(), 8);
}
