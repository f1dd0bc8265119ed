use flowtracer::classifier::patterns::{match_entry, match_error, match_exit};

// ── ENTRY patterns ──────────────────────────────────────────────

#[test]
fn patterns_entry_executing() {
    let m = match_entry("Executing CreateOrderController").unwrap();
    assert_eq!(m.name.unwrap(), "CreateOrderController");
}

#[test]
fn patterns_entry_executing_method() {
    let m = match_entry("Executing method PaymentService.GetProvider").unwrap();
    assert_eq!(m.name.unwrap(), "PaymentService.GetProvider");
}

#[test]
fn patterns_entry_enter() {
    let m = match_entry("Enter GetUser").unwrap();
    assert_eq!(m.name.unwrap(), "GetUser");
}

#[test]
fn patterns_entry_entering() {
    let m = match_entry("Entering ValidateInput").unwrap();
    assert_eq!(m.name.unwrap(), "ValidateInput");
}

#[test]
fn patterns_entry_starting() {
    let m = match_entry("Starting OrderProcessing").unwrap();
    assert_eq!(m.name.unwrap(), "OrderProcessing");
}

#[test]
fn patterns_entry_handling() {
    let m = match_entry("Handling CreateOrder").unwrap();
    assert_eq!(m.name.unwrap(), "CreateOrder");
}

#[test]
fn patterns_entry_processing() {
    let m = match_entry("Processing PaymentRequest").unwrap();
    assert_eq!(m.name.unwrap(), "PaymentRequest");
}

#[test]
fn patterns_entry_calling() {
    let m = match_entry("Calling ExternalAPI").unwrap();
    assert_eq!(m.name.unwrap(), "ExternalAPI");
}

#[test]
fn patterns_entry_arrow() {
    let m = match_entry("--> HandleRequest").unwrap();
    assert_eq!(m.name.unwrap(), "HandleRequest");
}

#[test]
fn patterns_entry_name_started() {
    let m = match_entry("GetUser started").unwrap();
    assert_eq!(m.name.unwrap(), "GetUser");
    let m = match_entry("billing.Charge   STARTED at 10:00").unwrap();
    assert_eq!(m.name.unwrap(), "billing.Charge");
    assert!(match_entry("started").is_none());
}

#[test]
fn entry_case_insensitive() {
    let m = match_entry("executing getUser").unwrap();
    assert_eq!(m.name.unwrap(), "getUser");
}

#[test]
fn entry_no_match() {
    assert!(match_entry("Just a regular log line").is_none());
    assert!(match_entry("Completed successfully").is_none());
}

// ── EXIT patterns ───────────────────────────────────────────────

#[test]
fn patterns_exit_completed() {
    let m = match_exit("GetUser completed").unwrap();
    assert_eq!(m.name.unwrap(), "GetUser");
}

#[test]
fn patterns_exit_finished() {
    let m = match_exit("OrderProcessing finished").unwrap();
    assert_eq!(m.name.unwrap(), "OrderProcessing");
}

#[test]
fn patterns_exit_exiting() {
    let m = match_exit("Exiting CreateOrder").unwrap();
    assert_eq!(m.name.unwrap(), "CreateOrder");
}

#[test]
fn patterns_exit_arrow() {
    let m = match_exit("<-- HandleRequest").unwrap();
    assert_eq!(m.name.unwrap(), "HandleRequest");
}

#[test]
fn exit_completed_prefix() {
    let m = match_exit("Completed successfully").unwrap();
    assert_eq!(m.name.unwrap(), "successfully");
}

#[test]
fn exit_no_match() {
    assert!(match_exit("Executing GetUser").is_none());
    assert!(match_exit("Some random log").is_none());
}

// ── ERROR patterns ──────────────────────────────────────────────

#[test]
fn error_exception_colon() {
    let m = match_error("NullPointerException: Cannot invoke method on null").unwrap();
    assert_eq!(m.message, "Cannot invoke method on null");
    assert!(m.is_exception);
    assert!(!m.is_throw);
}

#[test]
fn error_error_colon() {
    let m = match_error("Error: Connection refused").unwrap();
    assert_eq!(m.message, "Connection refused");
    assert!(!m.is_exception);
}

#[test]
fn error_panic() {
    let m = match_error("PANIC: thread main panicked at 'index out of bounds'").unwrap();
    assert_eq!(m.message, "thread main panicked at 'index out of bounds'");
}

#[test]
fn error_throw_new() {
    let m = match_error("throw new ValidationError(invalid input)").unwrap();
    assert!(m.is_throw);
    assert_eq!(m.exception_name.unwrap(), "ValidationError");
    assert_eq!(m.message, "invalid input");
}

#[test]
fn error_throw_simple() {
    let m = match_error("throw RuntimeError").unwrap();
    assert!(m.is_throw);
    assert_eq!(m.exception_name.unwrap(), "RuntimeError");
}

#[test]
fn error_failed_to() {
    let m = match_error("failed to connect to database: timeout after 30s").unwrap();
    assert_eq!(m.message, "timeout after 30s");
}

#[test]
fn error_not_found() {
    let m = match_error("No provider found with name \"paypau\"").unwrap();
    assert_eq!(m.message, "No provider found with name \"paypau\"");
}

#[test]
fn error_no_match() {
    assert!(match_error("Everything is fine").is_none());
    assert!(match_error("Executing GetUser").is_none());
}
