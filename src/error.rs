use vstd::prelude::*;

verus! {

/// An error answer: a machine-readable code, a status number and a message
/// for people. `new` fills in the defaults for what it is not given, and
/// `status` and `message` change one part each and can be chained.
#[derive(Debug)]
pub struct Error {
    code: String,
    status: u16,
    message: String,
}

impl Error {
    pub closed spec fn code(&self) -> Seq<char> {
        self.code@
    }

    pub closed spec fn status_code(&self) -> u16 {
        self.status
    }

    pub closed spec fn text(&self) -> Seq<char> {
        self.message@
    }

    /// An error with `code`, status 500 and the default message.
    pub fn new(code: String) -> (e: Self)
        ensures
            e.code() == code@,
            e.status_code() == 500,
            e.text() == Error::default_text(),
    {
        let d = Error::default();
        Error { code, ..d }
    }

    /// The message of an error that nothing more is known of.
    pub open spec fn default_text() -> Seq<char> {
        "Unknown error has happened."@
    }

    /// Sets the status number.
    pub fn status(&mut self, s: u16) -> (r: &mut Self)
        ensures
            r.code() == old(self).code(),
            r.status_code() == s,
            r.text() == old(self).text(),
            *final(self) == *final(r),
    {
        self.status = s;
        self
    }

    /// Sets the message.
    pub fn message(&mut self, m: String) -> (r: &mut Self)
        ensures
            r.code() == old(self).code(),
            r.status_code() == old(self).status_code(),
            r.text() == m@,
            *final(self) == *final(r),
    {
        self.message = m;
        self
    }
}

impl Default for Error {
    /// An error that nothing is known of: code `UNKNOWN`, status 500.
    fn default() -> (e: Self)
        ensures
            e.code() == "UNKNOWN"@,
            e.status_code() == 500,
            e.text() == Error::default_text(),
    {
        Error {
            code: "UNKNOWN".to_owned(),
            status: 500,
            message: "Unknown error has happened.".to_owned(),
        }
    }
}

} // verus!
