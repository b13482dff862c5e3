use vstd::prelude::*;
use vstd::string::StringExecFns;

verus! {

/// Ghost shape of a decoded update entry: the two text fields as
/// character sequences.
#[verifier::ext_equal]
pub ghost struct UpdateView {
    pub title: Seq<char>,
    pub body: Seq<char>,
}

/// A transmission entry decoded from the update board.
///
/// `body` is the practical identity key: two entries are the same
/// transmission exactly when their `body` strings are equal. `title` is
/// descriptive only and takes no part in identity.
#[derive(Debug)]
pub struct MittyUpdate {
    pub title: String,
    pub body: String,
}

impl DeepView for MittyUpdate {
    type V = UpdateView;

    open spec fn deep_view(&self) -> UpdateView {
        UpdateView { title: self.title@, body: self.body@ }
    }
}

impl Clone for MittyUpdate {
    fn clone(&self) -> (r: Self)
        ensures
            r.deep_view() == self.deep_view(),
    {
        MittyUpdate { title: self.title.clone(), body: self.body.clone() }
    }
}

impl MittyUpdate {
    pub fn new(title: String, body: String) -> (r: MittyUpdate)
        ensures
            r.deep_view() == (UpdateView { title: title@, body: body@ }),
    {
        MittyUpdate { title, body }
    }

    /// The human-readable form of an entry: `title: body`.
    pub fn display_line(&self) -> (r: String)
        ensures
            r@ == self.title@ + ": "@ + self.body@,
    {
        let mut s = self.title.clone();
        s.append(": ");
        s.append(self.body.as_str());
        s
    }
}

/// The run's error taxonomy: what aborted it and where.
#[derive(Debug)]
pub enum MittyAntennaError {
    /// The update board could not be decoded from the page: no container
    /// held any record.
    UpdateBoard(&'static str),
    /// An HTTP failure: fetching the page or delivering a notification.
    Transport(String),
    /// The persisted store failed a lookup or an insert.
    Store(String),
}

impl MittyAntennaError {
    /// The human-readable form of the error.
    pub fn message(&self) -> (r: String)
        ensures
            match self {
                MittyAntennaError::UpdateBoard(m) => r@ == "update board parsing error: "@
                    + m@,
                MittyAntennaError::Transport(m) => r@ == "transport error: "@ + m@,
                MittyAntennaError::Store(m) => r@ == "store error: "@ + m@,
            },
    {
        match self {
            MittyAntennaError::UpdateBoard(m) => {
                let mut s = String::from_str("update board parsing error: ");
                s.append(m);
                s
            },
            MittyAntennaError::Transport(m) => {
                let mut s = String::from_str("transport error: ");
                s.append(m.as_str());
                s
            },
            MittyAntennaError::Store(m) => {
                let mut s = String::from_str("store error: ");
                s.append(m.as_str());
                s
            },
        }
    }
}

} // verus!
