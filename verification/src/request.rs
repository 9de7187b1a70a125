//! Reading the parameters of a query: how many results, and by which
//! method.
use vstd::prelude::*;
use vstd::string::StringExecFns;

verus! {

/// How a query ranks a collection.
#[derive(Clone, Copy, Debug, PartialEq, Eq)]
pub enum SearchMethod {
    /// By the score of each embedding against the query.
    Cosine,
    /// By a classifier that tells the query from the collection.
    ExemplarSVM,
}

/// Text of the error for a method name that is neither `cosine` nor `svm`.
pub open spec fn invalid_method_text(param: Seq<char>) -> Seq<char> {
    "Invalid method '"@ + param + "'. Must be 'cosine' or 'svm'"@
}

/// The method that a request names: `cosine` or `svm`, and the exemplar
/// method where it names none.
pub fn parse_method(methodparam: Option<String>) -> (r: Result<SearchMethod, String>)
    ensures
        match methodparam {
            None => r == Ok::<SearchMethod, String>(SearchMethod::ExemplarSVM),
            Some(param) => if param@ == "cosine"@ {
                r == Ok::<SearchMethod, String>(SearchMethod::Cosine)
            } else if param@ == "svm"@ {
                r == Ok::<SearchMethod, String>(SearchMethod::ExemplarSVM)
            } else {
                r matches Err(message) && message@ == invalid_method_text(param@)
            },
        },
{
    match methodparam {
        Some(param) => {
            if param == String::from_str("cosine") {
                Ok(SearchMethod::Cosine)
            } else if param == String::from_str("svm") {
                Ok(SearchMethod::ExemplarSVM)
            } else {
                let mut message = String::from_str("Invalid method '");
                message.append(param.as_str());
                message.append("'. Must be 'cosine' or 'svm'");
                Err(message)
            }
        },
        None => Ok(SearchMethod::ExemplarSVM),
    }
}

/// The number of results of a query that asks for none.
pub const DEFAULT_NRESULTS: usize = 3;

/// What a text is as a count.
pub enum Count {
    /// The number that the text writes.
    Value(nat),
    /// The text is empty.
    Empty,
    /// The text holds something other than digits after an optional `+`, or
    /// no digit at all.
    InvalidDigit,
    /// The number does not fit in a `usize`.
    TooLarge,
}

/// `c` is one of the ten digits.
pub open spec fn is_digit(c: char) -> bool {
    '0' <= c && c <= '9'
}

/// The number that the digit `c` stands for.
pub open spec fn digit_value(c: char) -> nat {
    (c as u32 - '0' as u32) as nat
}

/// Every character of `d` is a digit.
pub open spec fn all_digits(d: Seq<char>) -> bool {
    forall|i: int| 0 <= i < d.len() ==> is_digit(#[trigger] d[i])
}

/// The number that a sequence of digits writes in base ten.
pub open spec fn value_of(d: Seq<char>) -> nat
    decreases d.len(),
{
    if d.len() == 0 {
        0
    } else {
        value_of(d.drop_last()) * 10 + digit_value(d.last())
    }
}

/// Some digits at the start of `d` already write a number beyond `usize`.
pub open spec fn outgrows(d: Seq<char>) -> bool {
    exists|m: int|
        0 <= m <= d.len() && all_digits(#[trigger] d.subrange(0, m)) && value_of(d.subrange(0, m))
            > usize::MAX
}

/// A text read as a count: an optional `+`, then digits only. Read from the
/// left, a number that gets too large is reported before a character that
/// is no digit, if it comes first.
pub open spec fn count_of(s: Seq<char>) -> Count {
    if s.len() == 0 {
        Count::Empty
    } else {
        let d = if s[0] == '+' { s.subrange(1, s.len() as int) } else { s };
        if d.len() == 0 {
            Count::InvalidDigit
        } else if outgrows(d) {
            Count::TooLarge
        } else if !all_digits(d) {
            Count::InvalidDigit
        } else {
            Count::Value(value_of(d))
        }
    }
}

/// Text of the error for a count that cannot be read.
pub open spec fn bad_count_text(count: Count) -> Seq<char> {
    "Could not convert n query param: "@ + (match count {
        Count::Empty => "cannot parse integer from empty string"@,
        Count::InvalidDigit => "invalid digit found in string"@,
        _ => "number too large to fit in target type"@,
    })
}

/// Reading one more digit does not make the number smaller.
proof fn lemma_value_grows(d: Seq<char>, m: int)
    requires
        0 <= m < d.len(),
    ensures
        value_of(d.subrange(0, m + 1)) == value_of(d.subrange(0, m)) * 10 + digit_value(d[m]),
{
    assert(d.subrange(0, m + 1).drop_last() =~= d.subrange(0, m));
}

/// The number of results that a request asks for: the number that `nparam`
/// writes, and [`DEFAULT_NRESULTS`] where there is none.
pub fn parse_nresults(nparam: Option<String>) -> (r: Result<usize, String>)
    ensures
        match nparam {
            None => r == Ok::<usize, String>(DEFAULT_NRESULTS),
            Some(text) => match count_of(text@) {
                Count::Value(n) => r matches Ok(value) && value == n,
                other => r matches Err(message) && message@ == bad_count_text(other),
            },
        },
{
    let text = match nparam {
        Some(text) => text,
        None => {
            return Ok(DEFAULT_NRESULTS);
        },
    };
    let s = text.as_str();
    let n: usize = s.unicode_len();
    if n == 0 {
        return Err(bad_count(Unreadable::Empty));
    }
    let start: usize = if s.get_char(0) == '+' { 1 } else { 0 };
    let ghost d = if s@[0] == '+' { s@.subrange(1, n as int) } else { s@ };
    assert(d =~= s@.subrange(start as int, n as int));
    if start == n {
        return Err(bad_count(Unreadable::InvalidDigit));
    }
    let mut acc: usize = 0;
    let mut i: usize = start;
    while i < n
        invariant
            start <= i <= n == s@.len(),
            nparam == Some(text),
            s@ == text@,
            n > 0,
            d.len() > 0,
            d == (if s@[0] == '+' { s@.subrange(1, n as int) } else { s@ }),
            d == s@.subrange(start as int, n as int),
            all_digits(d.subrange(0, i - start)),
            acc == value_of(d.subrange(0, i - start)),
            forall|m: int| 0 <= m <= i - start ==> value_of(#[trigger] d.subrange(0, m)) <= usize::MAX,
        decreases n - i,
    {
        let c: char = s.get_char(i);
        let ghost k = i - start;
        assert(d[k] == c);
        if !(c >= '0' && c <= '9') {
            proof {
                assert(!all_digits(d));
                assert forall|m: int|
                    0 <= m <= d.len() && all_digits(#[trigger] d.subrange(0, m)) implies value_of(
                    d.subrange(0, m),
                ) <= usize::MAX by {
                    if m > k {
                        assert(d.subrange(0, m)[k] == d[k]);
                    }
                }
            }
            return Err(bad_count(Unreadable::InvalidDigit));
        }
        let digit: usize = (c as u32 - '0' as u32) as usize;
        proof {
            lemma_value_grows(d, k);
            assert forall|j: int| 0 <= j < k + 1 implies is_digit(
                #[trigger] d.subrange(0, k + 1)[j],
            ) by {
                if j < k {
                    assert(d.subrange(0, k)[j] == d[j]);
                }
            }
        }
        if acc > (usize::MAX - digit) / 10 {
            return Err(bad_count(Unreadable::TooLarge));
        }
        acc = acc * 10 + digit;
        i += 1;
    }
    proof {
        assert(d.subrange(0, d.len() as int) =~= d);
        assert forall|m: int|
            0 <= m <= d.len() && all_digits(#[trigger] d.subrange(0, m)) implies value_of(
            d.subrange(0, m),
        ) <= usize::MAX by {}
    }
    Ok(acc)
}

/// Why a text is no count.
enum Unreadable {
    Empty,
    InvalidDigit,
    TooLarge,
}

/// The error text for a count that cannot be read.
fn bad_count(why: Unreadable) -> (message: String)
    ensures
        message@ == bad_count_text(
            match why {
                Unreadable::Empty => Count::Empty,
                Unreadable::InvalidDigit => Count::InvalidDigit,
                Unreadable::TooLarge => Count::TooLarge,
            },
        ),
{
    let mut message = String::from_str("Could not convert n query param: ");
    match why {
        Unreadable::Empty => message.append("cannot parse integer from empty string"),
        Unreadable::InvalidDigit => message.append("invalid digit found in string"),
        Unreadable::TooLarge => message.append("number too large to fit in target type"),
    }
    message
}

} // verus!
