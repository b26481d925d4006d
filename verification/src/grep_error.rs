use vstd::prelude::*;

verus! {

/// The error the tool reports to its user, as a rendered message.
#[derive(Debug)]
pub struct GrepError {
    pub msg: String,
}

impl View for GrepError {
    type V = Seq<char>;

    open spec fn view(&self) -> Seq<char> {
        self.msg@
    }
}

impl GrepError {
    /// Wrap an already rendered error message.
    pub fn from_err(msg: String) -> (r: Self)
        ensures
            r@ == msg@,
    {
        GrepError { msg }
    }

    /// The message text.
    pub fn message(&self) -> (r: String)
        ensures
            r@ == self@,
    {
        self.msg.clone()
    }
}

} // verus!
