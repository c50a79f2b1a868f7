use vstd::prelude::*;
use vstd::string::StringExecFns;

verus! {

/// Why a request was refused.
#[derive(Debug)]
pub enum ApiError {
    /// The resource named by the request does not exist.
    NotFound,
    /// The request's data break a rule; the text says which.
    Invalid(String),
}

/// `error` is a refusal for invalid data, with `text` as its reason.
pub open spec fn is_invalid_with(error: ApiError, text: Seq<char>) -> bool {
    error matches ApiError::Invalid(reason) && reason@ == text
}

impl ApiError {
    /// The HTTP status that answers this refusal.
    pub fn status_code(&self) -> (code: u16)
        ensures
            code == (match self {
                ApiError::NotFound => 404u16,
                ApiError::Invalid(_) => 400u16,
            }),
    {
        match self {
            ApiError::NotFound => 404,
            ApiError::Invalid(_) => 400,
        }
    }

    /// The human-readable text of this refusal.
    pub fn message(&self) -> (text: String)
        ensures
            text@ == (match self {
                ApiError::NotFound => "resource not found"@,
                ApiError::Invalid(reason) => "invalid request: "@ + reason@,
            }),
    {
        match self {
            ApiError::NotFound => "resource not found".to_owned(),
            ApiError::Invalid(reason) => {
                let mut text = "invalid request: ".to_owned();
                text.append(reason.as_str());
                text
            },
        }
    }
}

} // verus!
