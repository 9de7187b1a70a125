//! The error taxonomy of the retrieval core and the text of each error.
use vstd::prelude::*;
use vstd::string::StringExecFns;

verus! {

/// Everything an index or registry operation can fail with.
#[derive(Debug, PartialEq, Eq)]
pub enum Error {
    /// The texts and the embeddings handed to an index differ in number.
    LengthMismatch { texts_len: usize, embeddings_len: usize },
    /// A query vector and a stored vector differ in dimension. `index` names
    /// the collection when the failure is reported through a registry, and is
    /// empty otherwise.
    DimensionMismatch { index: String, query_len: usize, vector_len: usize },
    /// No collection has this name.
    NotFound { name: String },
    /// A collection of this name is already there.
    AlreadyExists { name: String },
    /// Exemplar ranking could not train or evaluate its classifier.
    Solver { reason: String },
}

/// The character that writes the digit `d`.
pub open spec fn digit_char(d: nat) -> char {
    if d == 0 {
        '0'
    } else if d == 1 {
        '1'
    } else if d == 2 {
        '2'
    } else if d == 3 {
        '3'
    } else if d == 4 {
        '4'
    } else if d == 5 {
        '5'
    } else if d == 6 {
        '6'
    } else if d == 7 {
        '7'
    } else if d == 8 {
        '8'
    } else {
        '9'
    }
}

/// `n` written in base ten, without sign or leading zeros.
pub open spec fn decimal(n: nat) -> Seq<char>
    decreases n,
{
    if n < 10 {
        seq![digit_char(n)]
    } else {
        decimal(n / 10).push(digit_char(n % 10))
    }
}

/// Text of a [`Error::LengthMismatch`].
pub open spec fn unequal_lens_text(texts_len: nat, embeddings_len: nat) -> Seq<char> {
    "texts (len="@ + decimal(texts_len) + ") and embeddings (len="@ + decimal(embeddings_len)
        + ") have unequal lengths"@
}

/// Text of a [`Error::DimensionMismatch`] that names no collection.
pub open spec fn unequal_dims_text(query_len: nat, vector_len: nat) -> Seq<char> {
    "Vectors not equal length (a="@ + decimal(query_len) + ", b="@ + decimal(vector_len) + ")"@
}

impl Error {
    /// The text of this error.
    pub open spec fn text(self) -> Seq<char> {
        match self {
            Error::LengthMismatch { texts_len, embeddings_len } => unequal_lens_text(
                texts_len as nat,
                embeddings_len as nat,
            ),
            Error::DimensionMismatch { index, query_len, vector_len } => if index@.len() == 0 {
                unequal_dims_text(query_len as nat, vector_len as nat)
            } else {
                "Index "@ + index@ + ": "@ + unequal_dims_text(query_len as nat, vector_len as nat)
            },
            Error::NotFound { name } => name@ + " not found"@,
            Error::AlreadyExists { name } => name@ + " already exists"@,
            Error::Solver { reason } => "svm: "@ + reason@,
        }
    }

    /// Renders the error as a line of text.
    pub fn message(&self) -> (s: String)
        ensures
            s@ == self.text(),
    {
        match self {
            Error::LengthMismatch { texts_len, embeddings_len } => {
                let mut s = String::from_str("texts (len=");
                append_decimal(&mut s, *texts_len);
                s.append(") and embeddings (len=");
                append_decimal(&mut s, *embeddings_len);
                s.append(") have unequal lengths");
                s
            },
            Error::DimensionMismatch { index, query_len, vector_len } => {
                let mut s = String::new();
                if index.as_str().unicode_len() != 0 {
                    s.append("Index ");
                    s.append(index.as_str());
                    s.append(": ");
                }
                s.append("Vectors not equal length (a=");
                append_decimal(&mut s, *query_len);
                s.append(", b=");
                append_decimal(&mut s, *vector_len);
                s.append(")");
                assert(s@ == self.text());
                s
            },
            Error::NotFound { name } => {
                let mut s = name.clone();
                s.append(" not found");
                s
            },
            Error::AlreadyExists { name } => {
                let mut s = name.clone();
                s.append(" already exists");
                s
            },
            Error::Solver { reason } => {
                let mut s = String::from_str("svm: ");
                s.append(reason.as_str());
                s
            },
        }
    }
}

/// The one-character string that writes the digit `d`.
fn digit_str(d: usize) -> (s: &'static str)
    requires
        d < 10,
    ensures
        s@ == seq![digit_char(d as nat)],
{
    proof {
        reveal_strlit("0");
        reveal_strlit("1");
        reveal_strlit("2");
        reveal_strlit("3");
        reveal_strlit("4");
        reveal_strlit("5");
        reveal_strlit("6");
        reveal_strlit("7");
        reveal_strlit("8");
        reveal_strlit("9");
    }
    let s: &'static str = if d == 0 {
        "0"
    } else if d == 1 {
        "1"
    } else if d == 2 {
        "2"
    } else if d == 3 {
        "3"
    } else if d == 4 {
        "4"
    } else if d == 5 {
        "5"
    } else if d == 6 {
        "6"
    } else if d == 7 {
        "7"
    } else if d == 8 {
        "8"
    } else {
        "9"
    };
    assert(s@ =~= seq![digit_char(d as nat)]);
    s
}

/// Appends `n` in base ten to `s`.
pub fn append_decimal(s: &mut String, n: usize)
    ensures
        final(s)@ == old(s)@ + decimal(n as nat),
    decreases n,
{
    if n >= 10 {
        append_decimal(s, n / 10);
    }
    s.append(digit_str(n % 10));
    assert(final(s)@ =~= old(s)@ + decimal(n as nat));
}

} // verus!
