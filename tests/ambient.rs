use reactive_engine::context::{ContextError, ContextRegistry};
use reactive_engine::errors::{parse_number, ErrorBoundary, RuleError};
use reactive_engine::parity::{
    conversion_view, is_n_odd, match_message, odd_message, odd_note, parity_message, shows_greater,
    ConversionView,
};

#[test]
fn descendant_reads_provided_value() {
    let mut ctx = ContextRegistry::new();
    let provider = ctx.add_child(0).unwrap();
    let consumer = ctx.add_child(provider).unwrap();
    let grandchild = ctx.add_child(consumer).unwrap();
    let outsider = ctx.add_child(0).unwrap();
    ctx.provide_context(provider, 7, 42).unwrap();
    assert_eq!(ctx.use_context(consumer, 7), Ok(42));
    assert_eq!(ctx.use_context(grandchild, 7), Ok(42));
    assert_eq!(ctx.use_context(provider, 7), Ok(42));
    assert_eq!(ctx.use_context(outsider, 7), Err(ContextError::ContextNotFound));
    assert_eq!(ctx.use_context(0, 7), Err(ContextError::ContextNotFound));
    assert_eq!(ctx.use_context(consumer, 8), Err(ContextError::ContextNotFound));
}

#[test]
fn nearer_binding_shadows() {
    let mut ctx = ContextRegistry::new();
    let a = ctx.add_child(0).unwrap();
    let b = ctx.add_child(a).unwrap();
    let c = ctx.add_child(b).unwrap();
    ctx.provide_context(0, 1, 10).unwrap();
    ctx.provide_context(b, 1, 20).unwrap();
    assert_eq!(ctx.use_context(a, 1), Ok(10));
    assert_eq!(ctx.use_context(c, 1), Ok(20));
    ctx.provide_context(b, 1, 30).unwrap();
    assert_eq!(ctx.use_context(c, 1), Ok(30));
    assert_eq!(ctx.use_context(c + 1, 1), Err(ContextError::UnknownNode));
    assert_eq!(ctx.add_child(c + 1), Err(ContextError::UnknownNode));
    assert_eq!(ctx.provide_context(c + 1, 1, 0), Err(ContextError::UnknownNode));
}

#[test]
fn boundary_fills_on_bad_input_and_clears_when_fixed() {
    let mut boundary = ErrorBoundary::new();
    let site = 0;
    let parsed = parse_number("abc");
    assert_eq!(parsed, Err(RuleError::InvalidDigit));
    boundary.record(site, &parsed);
    assert_eq!(boundary.len(), 1);
    assert_eq!(boundary.get(site), Some(RuleError::InvalidDigit));
    let parsed = parse_number("5");
    assert_eq!(parsed, Ok(5));
    boundary.record(site, &parsed);
    assert!(boundary.is_empty());
    assert_eq!(boundary.get(site), None);
}

#[test]
fn boundary_sites_are_independent() {
    let mut boundary = ErrorBoundary::new();
    boundary.record(1, &parse_number("x"));
    boundary.record(2, &parse_number("y"));
    boundary.record(1, &parse_number("z"));
    assert_eq!(boundary.len(), 2);
    boundary.record(2, &parse_number("12"));
    assert_eq!(boundary.len(), 1);
    assert_eq!(boundary.get(1), Some(RuleError::InvalidDigit));
}

#[test]
fn numbers_parse_like_integers() {
    assert_eq!(parse_number("-17"), Ok(-17));
    assert_eq!(parse_number("+8"), Ok(8));
    assert_eq!(parse_number("2147483647"), Ok(i32::MAX));
    assert_eq!(parse_number("2147483648"), Err(RuleError::PosOverflow));
    assert_eq!(parse_number("-2147483649"), Err(RuleError::NegOverflow));
    assert_eq!(parse_number("-2147483648"), Ok(i32::MIN));
    assert_eq!(parse_number(""), Err(RuleError::Empty));
    assert_eq!(parse_number(" 5"), Err(RuleError::InvalidDigit));
    assert_eq!(parse_number("-"), Err(RuleError::InvalidDigit));
}

#[test]
fn parity_and_messages() {
    assert!(is_n_odd(3));
    assert!(is_n_odd(-3));
    assert!(!is_n_odd(0));
    assert!(!is_n_odd(-4));
    assert_eq!(match_message(0), "Zero");
    assert_eq!(match_message(1), "One");
    assert_eq!(match_message(7), "Odd");
    assert_eq!(match_message(8), "Even");
    assert_eq!(match_message(-1), "Odd");
}

#[test]
fn parity_lines() {
    assert_eq!(parity_message(5), "is odd");
    assert_eq!(parity_message(6), "is even");
    assert_eq!(odd_message(5), Some("is odd"));
    assert_eq!(odd_message(-2), None);
}

#[test]
fn error_messages() {
    assert_eq!(parse_number("abc").unwrap_err().message(), "invalid digit found in string");
    assert_eq!(parse_number("").unwrap_err().message(), "cannot parse integer from empty string");
    assert_eq!(RuleError::PosOverflow.message(), "number too large to fit in target type");
    assert_eq!(RuleError::NegOverflow.message(), "number too small to fit in target type");
}

#[test]
fn other_views() {
    assert_eq!(odd_note(3), Some("Is odd"));
    assert_eq!(odd_note(4), None);
    assert!(shows_greater(6));
    assert!(!shows_greater(5));
    assert_eq!(conversion_view(1), ConversionView::One);
    assert_eq!(conversion_view(2), ConversionView::Two);
    assert_eq!(conversion_view(3), ConversionView::Text(3));
    assert_eq!(conversion_view(0), ConversionView::Text(0));
}
