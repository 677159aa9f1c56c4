use git_queue::cli::{describe, exit_code_for, not_properly_initialized, EX_CANTCREAT, EX_DATAERR, EX_IOERR, EX_OSERR, EX_TEMPFAIL, EX_USAGE};
use git_queue::ctx::gpg_program;
use git_queue::error::{GitError, QueueError};

fn git(code: i32, class: i32) -> QueueError {
    QueueError::Git(GitError { code, class, message: String::from("boom") })
}

#[test]
fn usage_class_errors() {
    assert_eq!(exit_code_for(&QueueError::NotInRepository), Some(EX_USAGE));
    assert_eq!(exit_code_for(&QueueError::NotInitialized), Some(EX_USAGE));
    // class reference, code unborn branch
    assert_eq!(exit_code_for(&git(-9, 4)), Some(EX_USAGE));
}

#[test]
fn data_class_errors() {
    assert_eq!(exit_code_for(&QueueError::Inconsistency("queuelog")), Some(EX_DATAERR));
    assert_eq!(exit_code_for(&QueueError::InvalidName), Some(EX_DATAERR));
    assert_eq!(exit_code_for(&QueueError::NonUtf8), Some(EX_DATAERR));
}

#[test]
fn creation_os_io_and_memory_classes() {
    assert_eq!(exit_code_for(&QueueError::AlreadyExists("queuelog")), Some(EX_CANTCREAT));
    assert_eq!(exit_code_for(&git(-1, 2)), Some(EX_OSERR));
    assert_eq!(exit_code_for(&git(-1, 30)), Some(EX_IOERR));
    assert_eq!(exit_code_for(&git(-1, 12)), Some(EX_IOERR));
    assert_eq!(exit_code_for(&git(-1, 1)), Some(EX_TEMPFAIL));
}

#[test]
fn unknown_git_class_is_a_bug() {
    assert_eq!(exit_code_for(&git(-1, 11)), None);
}

#[test]
fn messages_name_the_failure() {
    assert_eq!(describe(&QueueError::NotInRepository), "not in a repository");
    assert_eq!(
        describe(&QueueError::Inconsistency("queuelog")),
        "detected inconsistency in queuelog, did you run a git command manually?"
    );
    assert_eq!(describe(&QueueError::AlreadyExists("queuelog")), "queuelog already exists");
    assert_eq!(describe(&git(-1, 2)), "boom");
}

#[test]
fn not_properly_initialized_is_a_usage_failure() {
    let r: Result<(), _> = not_properly_initialized();
    let e = r.err().unwrap();
    assert_eq!(e.code, EX_USAGE);
    assert_eq!(e.message, "Properly initialize your repository and try again");
}

#[test]
fn gpg_format_wins_over_programs() {
    let p = gpg_program(
        Some(String::from("openpgp")),
        Some(String::from("my-gpgsm")),
        None,
        None,
    );
    assert_eq!(p, "gpg");
    let p = gpg_program(Some(String::from("x509")), None, None, None);
    assert_eq!(p, "gpgsm");
}

#[test]
fn gpg_x509_program_wins_ties() {
    let p = gpg_program(
        None,
        Some(String::from("my-gpgsm")),
        Some(String::from("my-gpg")),
        Some(String::from("plain")),
    );
    assert_eq!(p, "my-gpgsm");
    let p = gpg_program(None, None, Some(String::from("my-gpg")), Some(String::from("plain")));
    assert_eq!(p, "my-gpg");
    let p = gpg_program(None, None, None, Some(String::from("plain")));
    assert_eq!(p, "plain");
    let p = gpg_program(None, None, None, None);
    assert_eq!(p, "gpg");
}
