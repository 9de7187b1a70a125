use scout::request::parse_method;
use scout::request::parse_nresults;
use scout::request::SearchMethod;
use scout::request::DEFAULT_NRESULTS;

fn name(s: &str) -> String {
    s.to_string()
}

fn by_std(text: &str) -> Result<usize, String> {
    text.parse::<usize>()
        .map_err(|err| format!("Could not convert n query param: {err}"))
}

#[test]
fn parse_method_knows_two_names() {
    assert_eq!(parse_method(Some(name("cosine"))), Ok(SearchMethod::Cosine));
    assert_eq!(parse_method(Some(name("svm"))), Ok(SearchMethod::ExemplarSVM));
    assert_eq!(parse_method(None), Ok(SearchMethod::ExemplarSVM));
    assert_eq!(
        parse_method(Some(name("knn"))),
        Err(name("Invalid method 'knn'. Must be 'cosine' or 'svm'"))
    );
    assert_eq!(
        parse_method(Some(name(""))),
        Err(name("Invalid method ''. Must be 'cosine' or 'svm'"))
    );
    assert_eq!(
        parse_method(Some(name("Cosine"))),
        Err(name("Invalid method 'Cosine'. Must be 'cosine' or 'svm'"))
    );
}

#[test]
fn parse_nresults_defaults_to_three() {
    assert_eq!(DEFAULT_NRESULTS, 3);
    assert_eq!(parse_nresults(None), Ok(3));
}

#[test]
fn parse_nresults_reads_numbers() {
    assert_eq!(parse_nresults(Some(name("0"))), Ok(0));
    assert_eq!(parse_nresults(Some(name("7"))), Ok(7));
    assert_eq!(parse_nresults(Some(name("+7"))), Ok(7));
    assert_eq!(parse_nresults(Some(name("0012"))), Ok(12));
    assert_eq!(parse_nresults(Some(name("1234567890"))), Ok(1234567890));
    assert_eq!(parse_nresults(Some(usize::MAX.to_string())), Ok(usize::MAX));
}

#[test]
fn parse_nresults_says_what_is_wrong() {
    assert_eq!(
        parse_nresults(Some(name(""))),
        Err(name("Could not convert n query param: cannot parse integer from empty string"))
    );
    assert_eq!(
        parse_nresults(Some(name("three"))),
        Err(name("Could not convert n query param: invalid digit found in string"))
    );
    assert_eq!(
        parse_nresults(Some(name("-1"))),
        Err(name("Could not convert n query param: invalid digit found in string"))
    );
    assert_eq!(
        parse_nresults(Some(name("+"))),
        Err(name("Could not convert n query param: invalid digit found in string"))
    );
    assert_eq!(
        parse_nresults(Some(name("99999999999999999999999999"))),
        Err(name("Could not convert n query param: number too large to fit in target type"))
    );
}

#[test]
fn parse_nresults_reads_as_the_standard_library_does() {
    let max = usize::MAX.to_string();
    let mut above = max.clone();
    let last = above.pop().unwrap();
    above.push(((last as u8) + 1) as char);
    let mut texts: Vec<String> = vec![
        name(""),
        name("+"),
        name("-"),
        name("++1"),
        name("+-1"),
        name("+0"),
        name("-0"),
        name(" 1"),
        name("1 "),
        name("1_000"),
        name("1.5"),
        name("1e3"),
        name("0x10"),
        name("\u{0663}"),
        name("12\u{00e9}"),
        name("\u{00e9}12"),
        name("000000000000000000000000000000000000000001"),
        max.clone(),
        above.clone(),
        format!("+{max}"),
        format!("+{above}"),
        format!("{max}0"),
        format!("{max}x"),
        format!("{above}x"),
        format!("x{above}"),
        format!("{max}00000x"),
        format!("0{max}"),
        name("18446744073709551616"),
        name("4294967295"),
        name("4294967296"),
        name("99999999999999999999x"),
        name("9999999999999999999x9"),
    ];
    for n in 0usize..200 {
        texts.push(n.to_string());
        texts.push(format!("{n}a"));
        texts.push(format!("a{n}"));
    }
    for text in texts {
        assert_eq!(parse_nresults(Some(text.clone())), by_std(&text), "{text:?}");
    }
}
