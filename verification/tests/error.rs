use gobbler::error::Error;

#[test]
fn message_of_a_duplicate_name() {
    let error = Error::DuplicateName {
        name: String::from("foo"),
        new_url: String::from("http://b"),
        old_url: String::from("http://a"),
    };
    assert_eq!(
        error.message(),
        "Blog with name 'foo' already stored (old url: http://a, new url: http://b)"
    );
}

#[test]
fn message_of_an_invalid_url() {
    assert_eq!(
        Error::InvalidRssFeedUrl(String::from("ftp://x")).message(),
        "'ftp://x' is not a valid RSS feed url"
    );
}

#[test]
fn message_of_a_timestamp_that_is_not_read() {
    assert_eq!(Error::ParseTimestamp.message(), "Failed to parse updated time stamp");
}
