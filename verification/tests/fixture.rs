use wyrd::fixture::{keyword_axis_of, keyword_axis_of_lowered};

#[test]
fn keyword_axes() {
    assert_eq!(keyword_axis_of("Authentication and login guide"), 0);
    assert_eq!(keyword_axis_of("SIGNIN"), 0);
    assert_eq!(keyword_axis_of("Invoices and billing walkthrough"), 1);
    assert_eq!(keyword_axis_of("User login and auth flow"), 0);
    assert_eq!(keyword_axis_of("nothing to see"), 2);
    assert_eq!(keyword_axis_of(""), 2);
}

#[test]
fn axis_reads_the_lowercase_form() {
    assert_eq!(keyword_axis_of_lowered("LOGIN"), 2);
    assert_eq!(keyword_axis_of("LOGIN"), 0);
    assert_eq!(keyword_axis_of_lowered("invoice"), 1);
}

