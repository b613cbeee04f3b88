//! Passwords as they are entered.

use vstd::prelude::*;
use crate::fsops::error::{FileError, FileErrorView, FsError};

verus! {

/// The password that was entered, or why there is none.
pub open spec fn entered_password(entered: Result<Seq<char>, Seq<char>>) -> Result<
    Seq<char>,
    FileErrorView,
> {
    match entered {
        Err(text) => Err(FsError::Io(text)),
        Ok(password) => if password.len() == 0 {
            Err(FsError::PasswordEmpty)
        } else {
            Ok(password)
        },
    }
}

/// What reading from the terminal returned, as contracts speak of it.
pub open spec fn entered_view(entered: Result<String, String>) -> Result<Seq<char>, Seq<char>> {
    match entered {
        Ok(password) => Ok(password@),
        Err(text) => Err(text@),
    }
}

/// The password that was entered, or why there is none. An empty one counts as
/// none.
pub fn read_password(entered: Result<String, String>) -> (r: Result<String, FileError>)
    ensures
        match r {
            Ok(password) => entered_password(entered_view(entered)) == Ok::<
                Seq<char>,
                FileErrorView,
            >(password@),
            Err(e) => entered_password(entered_view(entered)) == Err::<Seq<char>, FileErrorView>(
                e@,
            ),
        },
{
    match entered {
        Err(text) => Err(FsError::Io(text)),
        Ok(password) => {
            if password == String::new() {
                return Err(FsError::PasswordEmpty);
            }
            proof {
                if password@.len() == 0 {
                    assert(password@ =~= Seq::<char>::empty());
                }
            }
            Ok(password)
        },
    }
}

/// Every password that was entered is taken as it is, unless it is empty.
pub proof fn law_password_is_taken_as_entered(entered: Result<Seq<char>, Seq<char>>)
    ensures
        entered_password(entered) is Ok <==> (entered matches Ok(password) && password.len() > 0),
        entered_password(entered) matches Ok(password) ==> entered == Ok::<Seq<char>, Seq<char>>(
            password,
        ),
        entered_password(entered) matches Err(e) ==> match entered {
            Ok(_) => e == FileErrorView::PasswordEmpty,
            Err(text) => e == FileErrorView::Io(text),
        },
{
}

} // verus!
