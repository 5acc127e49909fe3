//! OS packages as the package manager reports them.
use vstd::prelude::*;
use vstd::string::StringExecFns;

use crate::text::decimal;
use crate::text::decimal_text;

verus! {

/// A package, as name, epoch, version, release and architecture.
#[derive(Debug)]
pub struct Package {
    pub name: String,
    pub epoch: i32,
    pub version: String,
    pub release: String,
    pub arch: String,
}

impl Package {
    /// `name-epoch:version-release.arch`.
    pub fn nevra(&self) -> (r: String)
        ensures
            r@ == self.name@ + seq!['-'] + decimal(self.epoch as i64) + seq![':'] + self.version@ + seq!['-']
                + self.release@ + seq!['.'] + self.arch@,
    {
        let mut r = self.name.clone();
        r.append("-");
        let epoch = decimal_text(self.epoch as i64);
        r.append(epoch.as_str());
        r.append(":");
        r.append(self.version.as_str());
        r.append("-");
        r.append(self.release.as_str());
        r.append(".");
        r.append(self.arch.as_str());
        proof {
            reveal_strlit("-");
            reveal_strlit(":");
            reveal_strlit(".");
        }
        r
    }
}

} // verus!
