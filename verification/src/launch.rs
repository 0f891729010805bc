use vstd::prelude::*;
use vstd::string::*;
use crate::text::{contains_seq, dec_of, str_contains, u64_to_string};

verus! {

/// The package identifier the sandboxed client is installed under.
pub open spec fn steam_package_id() -> Seq<char> {
    "com.valvesoftware.Steam"@
}

/// The deep link that tells the client which title to run.
pub open spec fn deep_link_of(id: u32) -> Seq<char> {
    "steam://run/"@ + dec_of(id as nat)
}

/// How to start the game client: through the sandboxed package runner
/// when the client is installed that way, else the bare executable.
pub struct LaunchPlan {
    pub sandboxed: bool,
    pub deep_link: String,
}

/// Decides the launch strategy from the installed-package listing: the
/// sandboxed path is taken exactly when the listing mentions the
/// client's package identifier.
pub fn plan_launch(listing: &str, game_id: u32) -> (r: LaunchPlan)
    ensures
        r.sandboxed == contains_seq(listing@, steam_package_id()),
        r.deep_link@ == deep_link_of(game_id),
{
    let sandboxed = str_contains(listing, "com.valvesoftware.Steam");
    let mut link = String::from_str("steam://run/");
    let ids = u64_to_string(game_id as u64);
    link.append(ids.as_str());
    proof {
        assert(link@ =~= deep_link_of(game_id));
    }
    LaunchPlan { sandboxed, deep_link: link }
}

} // verus!
