use vstd::prelude::*;

verus! {

/// An error with an optional description under it.
pub struct CheckerError {
    pub error: String,
    pub error_description: Option<String>,
}

impl CheckerError {
    pub fn new(error: String, error_description: Option<String>) -> (r: CheckerError)
        ensures
            r.error == error,
            r.error_description == error_description,
    {
        CheckerError { error, error_description }
    }

    /// The error, followed by its description on the next line where there is one.
    pub fn message(&self) -> (r: String)
        ensures
            r@ == match self.error_description {
                Some(d) => self.error@ + seq!['\n'] + d@,
                None => self.error@,
            },
    {
        let mut r = self.error.clone();
        match &self.error_description {
            Some(d) => {
                r.append("\n");
                r.append(d.as_str());
                proof {
                    reveal_strlit("\n");
                }
            },
            None => {},
        }
        r
    }
}

} // verus!
