use issue_delivery::domain::{is_valid, SubscriberEmail};
use issue_delivery::issue_store::{IssueStore, NewsletterIssue};
use issue_delivery::queue::StoreError;
use issue_delivery::subscriptions_confirm::{
    confirm_outcome, subscriber_to_confirm, ConfirmError, Parameters,
};

#[test]
fn ordinary_addresses_are_valid() {
    assert!(is_valid(&b"ursula_le_guin@gmail.com".to_vec()));
    assert!(is_valid(&b"alice@example.com".to_vec()));
    assert!(is_valid(&b"a@b".to_vec()));
}

#[test]
fn malformed_addresses_are_rejected() {
    assert!(!is_valid(&b"not-an-email".to_vec()));
    assert!(!is_valid(&b"".to_vec()));
    assert!(!is_valid(&b"@example.com".to_vec()));
    assert!(!is_valid(&b"alice@".to_vec()));
    assert!(!is_valid(&b"alice@@example.com".to_vec()));
    assert!(!is_valid(&b"a@b@c".to_vec()));
    assert!(!is_valid(&b"alice smith@example.com".to_vec()));
    assert!(!is_valid(&b"alice\n@example.com".to_vec()));
}

#[test]
fn parse_keeps_accepted_bytes_unchanged() {
    let email = SubscriberEmail::parse(b"alice@example.com".to_vec())
        .expect("a well-formed address parses");
    assert_eq!(email.as_bytes(), &b"alice@example.com".to_vec());
    assert!(email.valid());

    assert!(SubscriberEmail::parse(b"not-an-email".to_vec()).is_err());
}

#[test]
fn issue_store_records_are_immutable_and_unique() {
    let mut issues = IssueStore::new();
    let first = NewsletterIssue {
        title: "Issue A".to_string(),
        text_content: "text".to_string(),
        html_content: "<p>html</p>".to_string(),
    };
    assert!(issues.store_issue(1, first));

    // A second store under the same id keeps the original record.
    let second = NewsletterIssue {
        title: "Imposter".to_string(),
        text_content: "other".to_string(),
        html_content: "<p>other</p>".to_string(),
    };
    assert!(!issues.store_issue(1, second));

    let found = issues.lookup(1).expect("the stored issue is found");
    assert_eq!(found.title, "Issue A");
    assert_eq!(found.text_content, "text");
    assert_eq!(found.html_content, "<p>html</p>");

    assert!(issues.lookup(2).is_none());
}

#[test]
fn confirm_reports_unknown_token_with_unauthorized_status() {
    let parameters = Parameters {
        subscription_token: "a-token-nobody-holds".to_string(),
    };
    assert_eq!(parameters.subscription_token, "a-token-nobody-holds");
    // The store found no subscriber for the submitted token.
    let decision = subscriber_to_confirm(Ok(None));
    assert_eq!(decision, Err(ConfirmError::UnknownToken));
    assert_eq!(ConfirmError::UnknownToken.status_code(), 401);
}

#[test]
fn confirm_reports_store_failures_as_unexpected() {
    let decision = subscriber_to_confirm(Err(StoreError::Unavailable));
    assert_eq!(decision, Err(ConfirmError::UnexpectedError));
    assert_eq!(ConfirmError::UnexpectedError.status_code(), 500);

    let update = confirm_outcome(Err(StoreError::Unavailable));
    assert_eq!(update, Err(ConfirmError::UnexpectedError));
}

#[test]
fn confirm_passes_the_found_subscriber_through() {
    let decision = subscriber_to_confirm(Ok(Some(42)));
    assert_eq!(decision, Ok(42));
    assert_eq!(confirm_outcome(Ok(())), Ok(()));
}
