use vstd::prelude::*;

verus! {

/// An error carrying a plain message.
#[derive(Debug)]
pub struct LuxError<'a> {
    msg: &'a str,
}

impl<'a> LuxError<'a> {
    /// The message the error was made with.
    pub closed spec fn sp_msg(&self) -> Seq<char> {
        self.msg@
    }

    /// Boxes a message up as an error.
    pub fn boxed(msg: &'a str) -> (r: Box<LuxError<'a>>)
        ensures
            r.sp_msg() == msg@,
    {
        Box::new(LuxError { msg })
    }

    /// The message, for display by a caller.
    pub fn msg(&self) -> (r: &'a str)
        ensures
            r@ == self.sp_msg(),
    {
        self.msg
    }
}

} // verus!
