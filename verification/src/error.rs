//! What a session failure is.

use anyhow::Error as AnyhowError;
use vstd::prelude::*;
use vstd::std_specs::convert::FromSpecImpl;

verus! {

/// Why a session did not start, or did not continue.
///
/// A sentence and nothing else, because that is all a caller ever does with one: show it.
/// It is built from the whole cause chain, the step that failed, then what it was doing,
/// down to the field or the status the host actually objected to, so the part a person can
/// act on is not lost behind "RDP negotiation failed".
#[derive(Clone, Debug, PartialEq, Eq)]
pub struct Error {
    message: String,
}

/// Causes in one sentence, the outermost first.
pub open spec fn chained(causes: Seq<String>) -> Seq<char>
    decreases causes.len(),
{
    if causes.len() == 0 {
        seq![]
    } else if causes.len() == 1 {
        causes[0]@
    } else {
        chained(causes.drop_last()) + ": "@ + causes.last()@
    }
}

/// An error that gathered context on its way up.
#[verifier::external_type_specification]
#[verifier::external_body]
pub struct ExAnyhowError(AnyhowError);

/// Whether these may be the causes of an error, each in its own words, the outermost first:
/// what `anyhow::Error::chain` walks. A cause is any error at all, and what its `Display`
/// writes is its own to decide each time, so there may be several.
pub uninterp spec fn may_be_causes(err: AnyhowError, causes: Seq<String>) -> bool;

/// `anyhow::Error::chain`, each cause in its own words, the outermost first. What the
/// causes are is inside the error, which is opaque here.
#[verifier::external_body]
fn causes(err: &AnyhowError) -> (causes: Vec<String>)
    ensures
        may_be_causes(*err, causes@),
{
    err.chain().map(|cause| cause.to_string()).collect()
}

impl Error {
    /// The sentence.
    pub closed spec fn said(self) -> Seq<char> {
        self.message@
    }

    pub fn new(message: String) -> (error: Error)
        ensures
            error.said() == message@,
    {
        Error { message }
    }

    /// The causes in one sentence, the outermost first.
    pub fn chain(causes: &Vec<String>) -> (error: Error)
        ensures
            error.said() == chained(causes@),
    {
        let mut message = String::new();
        assert(message@ =~= chained(causes@.take(0)));
        for i in 0..causes.len()
            invariant
                message@ == chained(causes@.take(i as int)),
        {
            assert(causes@.take(i + 1).drop_last() =~= causes@.take(i as int));
            if i > 0 {
                message.append(": ");
            }
            message.append(causes[i].as_str());
            assert(message@ =~= chained(causes@.take(i + 1)));
        }
        assert(causes@.take(causes@.len() as int) =~= causes@);
        Error { message }
    }

    pub fn to_string(&self) -> (s: String)
        ensures
            s@ == self.said(),
    {
        let mut s = String::new();
        s.append(self.message.as_str());
        assert(s@ =~= self.said());
        s
    }
}

impl From<AnyhowError> for Error {
    /// The whole cause chain, in one sentence.
    fn from(err: AnyhowError) -> (error: Error)
        ensures
            exists|causes: Seq<String>|
                #[trigger] may_be_causes(err, causes) && error.said() == chained(causes),
    {
        let causes = causes(&err);
        Error::chain(&causes)
    }
}

impl FromSpecImpl<AnyhowError> for Error {
    open spec fn obeys_from_spec() -> bool {
        false
    }

    open spec fn from_spec(err: AnyhowError) -> Error {
        arbitrary()
    }
}

} // verus!
