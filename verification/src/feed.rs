use vstd::prelude::*;

verus! {

/// Identifier of a configured feed source: a closed, compile-time-known set,
/// one variant per feed.  Equality and hashing are by variant.  The variant
/// name doubles as the key under which the feed's watermark is persisted, so
/// it must not be renamed without migrating the state file.
#[derive(Clone, Copy, Debug, PartialEq, Eq, Hash, Structural)]
pub enum Feed {
    Netcup,
}

impl Feed {
    /// The stable, human-readable name of the feed.
    pub open spec fn spec_name(self) -> Seq<char> {
        match self {
            Feed::Netcup => "Netcup"@,
        }
    }

    pub fn name(&self) -> (r: &str)
        ensures
            r@ == self.spec_name(),
    {
        match self {
            Feed::Netcup => "Netcup",
        }
    }

    /// The URL the feed document is fetched from.
    pub open spec fn spec_url(self) -> Seq<char> {
        match self {
            Feed::Netcup => "https://www.netcup.com/special-offers.xml?locale=de"@,
        }
    }

    pub fn url(&self) -> (r: &str)
        ensures
            r@ == self.spec_url(),
    {
        match self {
            Feed::Netcup => "https://www.netcup.com/special-offers.xml?locale=de",
        }
    }

    /// Every configured feed, in a fixed order, for the poll loop to iterate.
    pub fn all() -> (v: Vec<Feed>)
        ensures
            v@ == seq![Feed::Netcup],
    {
        let mut v: Vec<Feed> = Vec::new();
        v.push(Feed::Netcup);
        v
    }
}

} // verus!
