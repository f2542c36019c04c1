use complex_plot::complex_func::{ComplexNode, ComplexNodeType, Number, ParseError};

fn drawn(s: &str) -> String {
    ComplexNode::parse(s).expect("a formula").display_string()
}

fn number(re: &str, im: &str) -> Number {
    Number { re: re.to_string(), im: im.to_string() }
}

#[test]
fn sum_splits_at_first_plus() {
    let n = ComplexNode::parse("1+2-3*4/5^6").unwrap();
    assert_eq!(n.get_name(), "Add");
    assert_eq!(
        n.display_string(),
        "Add_Sub_Mul_Div_Pow_6\n                |\n                5\n            |\n            4\n        |\n        3\n    |\n    2\n|\n1"
    );
}

#[test]
fn difference_is_read_right_to_left() {
    assert_eq!(drawn("a-b-c"), "Sub_Sub_c\n    |\n    b\n|\na");
}

#[test]
fn plus_before_minus() {
    assert_eq!(drawn("a-b+c"), "Add_c\n|\nSub_b\n|\na");
}

#[test]
fn call_hangs_argument_on_the_right() {
    assert_eq!(drawn("exp(x*i)"), "exp_Mul_i\n    |\n    x");
}

#[test]
fn bracket_first_then_product() {
    assert_eq!(drawn("(1+2)*3"), "Mul_3\n|\nAdd_2\n|\n1");
}

#[test]
fn bracket_between_product_and_sum() {
    assert_eq!(drawn("2*(3+4)+5"), "Add_5\n|\nMul_Add_4\n    |\n    3\n|\n2");
}

#[test]
fn number_followed_by_name() {
    assert_eq!(drawn("2x"), "2_x");
    assert_eq!(drawn("x2"), "2\n|\nx");
}

#[test]
fn decimal_numeral() {
    let n = ComplexNode::parse("3.14").unwrap();
    match &n.t {
        ComplexNodeType::Scalar(x) => {
            assert_eq!(x.re, "3.14");
            assert_eq!(x.im, "0");
        }
        _ => panic!("not a number"),
    }
    assert_eq!(drawn("1.2.3"), "1.2_3");
}

#[test]
fn vector_in_brackets() {
    let n = ComplexNode::parse("f(1,2)").unwrap();
    assert_eq!(n.display_string(), "f_12");
    let arg = n.right.as_ref().unwrap();
    assert!(arg.is_vec());
    let items = arg.get_vec();
    assert_eq!(items.len(), 2);
    assert_eq!(items[0].get_name(), "1");
    assert_eq!(items[1].get_name(), "2");
}

#[test]
fn outer_space_is_ignored() {
    assert_eq!(drawn("  x  "), "x");
    assert_eq!(drawn("\t exp(x) \n"), drawn("exp(x)"));
}

#[test]
fn empty_formula_reads_as_nothing() {
    assert!(ComplexNode::parse("").is_none());
    assert!(ComplexNode::parse("   ").is_none());
    assert!(ComplexNode::parse("()").is_none());
    assert!(ComplexNode::parse("$").is_none());
}

#[test]
fn empty_bracket_after_name_cannot_be_read() {
    assert!(ComplexNode::try_parse("f()").is_err());
    assert!(ComplexNode::try_parse("f()+1").is_err());
}

#[test]
fn empty_vector_piece_cannot_be_read() {
    match ComplexNode::try_parse("(1,)") {
        Err(ParseError::Unknown(_)) => {}
        _ => panic!("expected an error"),
    }
}

#[test]
fn cut_inside_a_character_cannot_be_read() {
    assert!(ComplexNode::try_parse("(\u{e9}\u{e9})").is_err());
    assert!(matches!(ComplexNode::try_parse("(\u{e9})"), Ok(None)));
}

#[test]
fn try_parse_agrees_with_parse() {
    let a = ComplexNode::try_parse("sin(x)/cos(x)").unwrap().unwrap();
    let b = ComplexNode::parse("sin(x)/cos(x)").unwrap();
    assert_eq!(a.display_string(), b.display_string());
}

#[test]
fn constants_and_names() {
    assert!(ComplexNode::parse("1+2*3").unwrap().is_const());
    assert!(!ComplexNode::parse("1+x").unwrap().is_const());
    assert!(!ComplexNode::parse("y").unwrap().is_const());
}

#[test]
fn node_names() {
    assert_eq!(ComplexNode::parse("a*b").unwrap().to_string(), "Mul");
    assert_eq!(ComplexNode::parse("a/b").unwrap().get_name(), "Div");
    assert_eq!(ComplexNode::parse("a^b").unwrap().get_name(), "Pow");
    assert_eq!(ComplexNode::parse("a-b").unwrap().get_name(), "Sub");
    assert_eq!(ComplexNode::parse("abc").unwrap().get_name(), "abc");
}

#[test]
fn number_nodes() {
    let n = ComplexNode::fromc(number("1.5", "-2"));
    assert_eq!(n.get_name(), "1.5");
    assert!(n.is_const());
    assert!(!n.is_vec());
    let items = n.get_vec();
    assert_eq!(items.len(), 1);
    assert_eq!(items[0].get_name(), "1.5");
    let z = ComplexNode::default();
    assert_eq!(z.get_name(), "0");
}

#[test]
fn copies_are_equal() {
    let n = ComplexNode::parse("f(1,2)*(a+b)").unwrap();
    let c = n.clone();
    assert_eq!(n.display_string(), c.display_string());
    assert_eq!(n.get_name(), c.get_name());
    assert_eq!(n.is_const(), c.is_const());
    assert_eq!(n.is_vec(), c.is_vec());
    let v = ComplexNode::parse("(1,x)").unwrap();
    let w = v.clone();
    assert!(w.is_vec() && w.is_const());
    assert_eq!(v.display_string(), w.display_string());
}

#[test]
fn digits_read_as_number() {
    let n = ComplexNode::parse("42").unwrap();
    match &n.t {
        ComplexNodeType::Scalar(x) => {
            assert_eq!(x.re, "42");
            assert_eq!(x.im, "0");
        }
        _ => panic!("not a number"),
    }
    assert!(n.left.is_none() && n.right.is_none());
}

#[test]
fn call_of_words() {
    let n = ComplexNode::parse("exp(x)").unwrap();
    assert_eq!(n.get_name(), "exp");
    assert!(n.left.is_none());
    assert_eq!(n.right.as_ref().unwrap().get_name(), "x");
    assert_eq!(n.display_string(), "exp_x");
}

#[test]
fn parse_error_messages() {
    let e = ParseError::Unknown("bad".to_string());
    assert_eq!(e.to_string(), "bad");
    assert_eq!(e.description(), "ParseError");
}

#[test]
fn text_without_brackets_always_reads() {
    for s in ["+", "-*/^", "1.2.3", "a b", ")))", ",", " x ) 2 ", "-"] {
        assert!(ComplexNode::try_parse(s).is_ok(), "{s}");
    }
    let n = ComplexNode::parse("+").unwrap();
    assert_eq!(n.get_name(), "Add");
    assert!(n.left.is_none() && n.right.is_none());
}
